//! Concurrent link aggregation.
//!
//! Workers scan files independently and fold every [`Link`] event they see
//! into a private collector; the partial collectors are then merged into one.
//! Each collector carries the multiset of events it has absorbed as ghost
//! state, and its concrete contents are an invariant-characterized function
//! of that multiset alone.  Since multiset union is commutative and
//! associative, any merge order yields the same final link table as direct
//! ingestion of all events.

use vstd::prelude::*;
use vstd::multiset::Multiset;
use vstd::seq_lib::lemma_multiset_commutative;

use crate::model::ev;
use crate::model::has_defines;
use crate::model::is_use;
use crate::model::is_use_of;
use crate::model::uses_len;
use crate::model::uses_of;
use crate::model::Href;
use crate::model::HrefV;
use crate::model::Link;
use crate::model::LinkEv;
use crate::model::UsedLink;
use crate::model::UsedLinkV;

verus! {

broadcast use vstd::multiset::group_multiset_axioms, vstd::seq_lib::group_to_multiset_ensures;

/// The use events recorded by a sequence of used links.
pub open spec fn usage_evs(s: Seq<UsedLink>) -> Seq<LinkEv> {
    s.map_values(|u: UsedLink| LinkEv::Uses(u@))
}

/// Inserting one event changes a filtered multiset by that event alone.
pub proof fn lemma_filter_insert(m: Multiset<LinkEv>, e: LinkEv, f: spec_fn(LinkEv) -> bool)
    ensures
        m.insert(e).filter(f) == (if f(e) {
            m.filter(f).insert(e)
        } else {
            m.filter(f)
        }),
{
    if f(e) {
        assert(m.insert(e).filter(f) =~= m.filter(f).insert(e));
    } else {
        assert(m.insert(e).filter(f) =~= m.filter(f));
    }
}

/// Filtering distributes over multiset union.
pub proof fn lemma_filter_add(m1: Multiset<LinkEv>, m2: Multiset<LinkEv>, f: spec_fn(LinkEv) -> bool)
    ensures
        m1.add(m2).filter(f) == m1.filter(f).add(m2.filter(f)),
{
    assert(m1.add(m2).filter(f) =~= m1.filter(f).add(m2.filter(f)));
}

pub proof fn lemma_uses_len_add(m1: Multiset<LinkEv>, m2: Multiset<LinkEv>)
    ensures
        uses_len(m1.add(m2)) == uses_len(m1) + uses_len(m2),
{
    lemma_filter_add(m1, m2, |e: LinkEv| is_use(e));
}

/// A multiset with no elements of positive count is the empty multiset.
pub proof fn lemma_len_zero_empty(m: Multiset<LinkEv>)
    requires
        m.len() == 0,
    ensures
        m == Multiset::<LinkEv>::empty(),
{
    assert(m =~= Multiset::<LinkEv>::empty());
}

/// Per-target state in the aggregate link table.
#[derive(Debug)]
pub enum LinkState {
    /// A `Defines` event for this target has been observed.
    Defined,
    /// No `Defines` event yet; every use is retained for potential error
    /// reporting.
    Undefined(Vec<UsedLink>),
}

impl LinkState {
    /// Records one more use; a defined target tracks no uses.
    pub fn add_usage(&mut self, link: UsedLink)
        ensures
            *old(self) is Defined ==> *final(self) == *old(self),
            *old(self) is Undefined ==> (*final(self) matches LinkState::Undefined(v)
                && v@ == (*old(self))->Undefined_0@.push(link)),
    {
        let mut tmp = LinkState::Defined;
        core::mem::swap(self, &mut tmp);
        let next = match tmp {
            LinkState::Defined => LinkState::Defined,
            LinkState::Undefined(mut v) => {
                v.push(link);
                LinkState::Undefined(v)
            },
        };
        *self = next;
    }

    /// Folds another target's state into this one: `Defined` wins
    /// unconditionally; two undefined states concatenate their uses.
    pub fn update(&mut self, other: LinkState)
        ensures
            (*old(self) is Defined || other is Defined) ==> *final(self) is Defined,
            (*old(self) is Undefined && other is Undefined) ==> (*final(self) matches LinkState::Undefined(v)
                && v@ == (*old(self))->Undefined_0@ + other->Undefined_0@),
    {
        let mut tmp = LinkState::Defined;
        core::mem::swap(self, &mut tmp);
        let next = match (tmp, other) {
            (LinkState::Undefined(mut v1), LinkState::Undefined(mut v2)) => {
                v1.append(&mut v2);
                LinkState::Undefined(v1)
            },
            _ => LinkState::Defined,
        };
        *self = next;
    }
}

/// Does the table entry `st` correctly summarize target `h` under the event
/// multiset `m`?  A target is `Defined` exactly when some `Defines` event
/// names it; otherwise the entry holds exactly the recorded uses of it.
pub open spec fn entry_ok(m: Multiset<LinkEv>, h: HrefV, st: LinkState) -> bool {
    match st {
        LinkState::Defined => has_defines(m, h),
        LinkState::Undefined(v) => !has_defines(m, h) && usage_evs(v@).to_multiset() == uses_of(
            m,
            h,
        ),
    }
}

/// Is target `h` mentioned at all (defined or used) in `m`?
pub open spec fn touched(m: Multiset<LinkEv>, h: HrefV) -> bool {
    has_defines(m, h) || uses_of(m, h).len() > 0
}

pub open spec fn key_at(s: Seq<(Href, LinkState)>, i: int) -> HrefV {
    s[i].0@
}

pub open spec fn keys_unique(s: Seq<(Href, LinkState)>) -> bool {
    forall|i: int, j: int| 0 <= i < j < s.len() ==> key_at(s, i) != key_at(s, j)
}

pub open spec fn key_present(s: Seq<(Href, LinkState)>, h: HrefV) -> bool {
    exists|i: int| 0 <= i < s.len() && key_at(s, i) == h
}

/// Looks a target up in a table fragment.
fn find_key(links: &Vec<(Href, LinkState)>, href: &Href) -> (r: Option<usize>)
    ensures
        match r {
            Option::Some(i) => i < links@.len() && key_at(links@, i as int) == href@,
            Option::None => !key_present(links@, href@),
        },
{
    let mut i: usize = 0;
    while i < links.len()
        invariant
            i <= links@.len(),
            forall|j: int| 0 <= j < i ==> key_at(links@, j) != href@,
        decreases links@.len() - i,
    {
        let entry = &links[i];
        if entry.0.same_as(href) {
            return Option::Some(i);
        }
        i += 1;
    }
    Option::None
}

/// The capability shared by every collector variant: start empty, absorb one
/// event at a time, and merge with an independently built collector.  The
/// ghost event multiset pins the contract down: merging is the union of the
/// events, so the result of any merge tree equals direct ingestion.
pub trait LinkCollector: Sized {
    /// The multiset of events this collector has absorbed.
    spec fn events(&self) -> Multiset<LinkEv>;

    /// Internal well-formedness, established by `new` and preserved forever.
    spec fn inv(&self) -> bool;

    fn new() -> (r: Self)
        ensures
            r.inv(),
            r.events() == Multiset::<LinkEv>::empty(),
    ;

    fn ingest(&mut self, link: Link)
        requires
            old(self).inv(),
            link is Uses ==> uses_len(old(self).events()) < usize::MAX,
        ensures
            final(self).inv(),
            final(self).events() == old(self).events().insert(ev(link)),
    ;

    fn merge(&mut self, other: Self)
        requires
            old(self).inv(),
            other.inv(),
            uses_len(old(self).events()) + uses_len(other.events()) <= usize::MAX,
        ensures
            final(self).inv(),
            final(self).events() == old(self).events().add(other.events()),
    ;
}

/// Collects only the use events, for tooling that wants usage data without
/// broken-link classification.  Defined links are discarded.
pub struct UsedLinkCollector {
    pub used_links: Vec<UsedLink>,
    pub events: Ghost<Multiset<LinkEv>>,
}

impl LinkCollector for UsedLinkCollector {
    open spec fn events(&self) -> Multiset<LinkEv> {
        self.events@
    }

    open spec fn inv(&self) -> bool {
        usage_evs(self.used_links@).to_multiset() == self.events@.filter(|e: LinkEv| is_use(e))
    }

    fn new() -> (r: Self) {
        let r = UsedLinkCollector { used_links: Vec::new(), events: Ghost(Multiset::empty()) };
        proof {
            assert(usage_evs(r.used_links@) =~= Seq::<LinkEv>::empty());
            assert(usage_evs(r.used_links@).to_multiset().len() == 0);
            lemma_len_zero_empty(usage_evs(r.used_links@).to_multiset());
            assert(Multiset::<LinkEv>::empty().filter(|e: LinkEv| is_use(e))
                =~= Multiset::<LinkEv>::empty());
        }
        r
    }

    fn ingest(&mut self, link: Link) {
        proof {
            lemma_filter_insert(self.events@, ev(link), |e: LinkEv| is_use(e));
            self.events@ = self.events@.insert(ev(link));
        }
        match link {
            Link::Uses(used_link) => {
                self.used_links.push(used_link);
                proof {
                    assert(usage_evs(self.used_links@) =~= usage_evs(
                        old(self).used_links@,
                    ).push(LinkEv::Uses(used_link@)));
                }
            },
            Link::Defines(_) => {},
        }
    }

    fn merge(&mut self, other: Self) {
        let mut other = other;
        let ghost other_links = other.used_links@;
        proof {
            lemma_filter_add(self.events@, other.events@, |e: LinkEv| is_use(e));
            self.events@ = self.events@.add(other.events@);
        }
        self.used_links.append(&mut other.used_links);
        proof {
            assert(usage_evs(self.used_links@) =~= usage_evs(old(self).used_links@) + usage_evs(
                other_links,
            ));
            lemma_multiset_commutative(usage_evs(old(self).used_links@), usage_evs(other_links));
        }
    }
}

/// Inserting one event changes the recorded uses of each target as that
/// event alone dictates.
pub proof fn lemma_uses_of_insert(m: Multiset<LinkEv>, e: LinkEv, h: HrefV)
    ensures
        uses_of(m.insert(e), h) == (if is_use_of(e, h) {
            uses_of(m, h).insert(e)
        } else {
            uses_of(m, h)
        }),
{
    if is_use_of(e, h) {
        assert(uses_of(m.insert(e), h) =~= uses_of(m, h).insert(e));
    } else {
        assert(uses_of(m.insert(e), h) =~= uses_of(m, h));
    }
}

pub proof fn lemma_uses_of_add(m1: Multiset<LinkEv>, m2: Multiset<LinkEv>, h: HrefV)
    ensures
        uses_of(m1.add(m2), h) == uses_of(m1, h).add(uses_of(m2, h)),
{
    assert(uses_of(m1.add(m2), h) =~= uses_of(m1, h).add(uses_of(m2, h)));
}

pub proof fn lemma_has_defines_insert(m: Multiset<LinkEv>, e: LinkEv, h: HrefV)
    ensures
        has_defines(m.insert(e), h) == (has_defines(m, h) || e == LinkEv::Defines(h)),
{
}

pub proof fn lemma_has_defines_add(m1: Multiset<LinkEv>, m2: Multiset<LinkEv>, h: HrefV)
    ensures
        has_defines(m1.add(m2), h) == (has_defines(m1, h) || has_defines(m2, h)),
{
}

pub proof fn lemma_uses_len_insert(m: Multiset<LinkEv>, e: LinkEv)
    ensures
        uses_len(m.insert(e)) == uses_len(m) + (if is_use(e) { 1int } else { 0int }),
{
    if is_use(e) {
        assert(m.insert(e).filter(|x: LinkEv| is_use(x)) =~= m.filter(|x: LinkEv| is_use(x)).insert(e));
    } else {
        assert(m.insert(e).filter(|x: LinkEv| is_use(x)) =~= m.filter(|x: LinkEv| is_use(x)));
    }
}

/// A target untouched by `m` has no recorded uses at all.
pub proof fn lemma_untouched_uses_empty(m: Multiset<LinkEv>, h: HrefV)
    requires
        !touched(m, h),
    ensures
        uses_of(m, h) == Multiset::<LinkEv>::empty(),
{
    lemma_len_zero_empty(uses_of(m, h));
}

/// Link collector used for actual link checking.  Keeps, per target, either
/// the fact that it is defined or the exact multiset of its recorded uses.
pub struct BrokenLinkCollector {
    pub links: Vec<(Href, LinkState)>,
    pub used_link_count: usize,
    pub events: Ghost<Multiset<LinkEv>>,
}

impl BrokenLinkCollector {
    /// The aggregate table is exactly the one the absorbed event multiset
    /// dictates: unique keys, each entry correct, every mentioned target
    /// present, and the use counter equal to the number of use events.
    pub open spec fn table_ok(&self) -> bool {
        &&& keys_unique(self.links@)
        &&& (forall|i: int|
            #![trigger key_at(self.links@, i)]
            0 <= i < self.links@.len() ==> entry_ok(
                self.events@,
                key_at(self.links@, i),
                self.links@[i].1,
            ))
        &&& (forall|h: HrefV| #[trigger] touched(self.events@, h) ==> key_present(self.links@, h))
        &&& self.used_link_count == uses_len(self.events@)
    }
}

impl LinkCollector for BrokenLinkCollector {
    open spec fn events(&self) -> Multiset<LinkEv> {
        self.events@
    }

    open spec fn inv(&self) -> bool {
        self.table_ok()
    }

    fn new() -> (r: Self) {
        let r = BrokenLinkCollector {
            links: Vec::new(),
            used_link_count: 0,
            events: Ghost(Multiset::empty()),
        };
        proof {
            assert(Multiset::<LinkEv>::empty().filter(|e: LinkEv| is_use(e))
                =~= Multiset::<LinkEv>::empty());
            assert forall|h: HrefV| #[trigger] touched(r.events@, h) implies key_present(
                r.links@,
                h,
            ) by {
                assert(uses_of(r.events@, h) =~= Multiset::<LinkEv>::empty());
            }
        }
        r
    }

    fn ingest(&mut self, link: Link) {
        let ghost m0 = self.events@;
        let ghost s0 = self.links@;
        proof {
            self.events@ = m0.insert(ev(link));
        }
        let ghost m = self.events@;
        match link {
            Link::Uses(used_link) => {
                let ghost h = used_link.href@;
                proof {
                    lemma_uses_len_insert(m0, ev(Link::Uses(used_link)));
                    assert forall|k: HrefV| true implies #[trigger] has_defines(m, k)
                        == has_defines(m0, k) by {
                        lemma_has_defines_insert(m0, LinkEv::Uses(used_link@), k);
                    }
                }
                self.used_link_count = self.used_link_count + 1;
                match find_key(&self.links, &used_link.href) {
                    Option::Some(i) => {
                        let ghost old_entry = s0[i as int];
                        self.links[i].1.add_usage(used_link);
                        proof {
                            let s = self.links@;
                            assert(s == s0.update(i as int, (s0[i as int].0, s[i as int].1)));
                            assert(keys_unique(s)) by {
                                assert forall|a: int, b: int| 0 <= a < b < s.len() implies key_at(
                                    s,
                                    a,
                                ) != key_at(s, b) by {
                                    assert(key_at(s, a) == key_at(s0, a));
                                    assert(key_at(s, b) == key_at(s0, b));
                                }
                            }
                            lemma_uses_of_insert(m0, LinkEv::Uses(used_link@), h);
                            assert forall|j: int|
                                #![trigger key_at(s, j)]
                                0 <= j < s.len() implies entry_ok(m, key_at(s, j), s[j].1) by {
                                let k = key_at(s, j);
                                assert(entry_ok(m0, key_at(s0, j), s0[j].1));
                                if j != i {
                                    assert(k != h);
                                    lemma_uses_of_insert(m0, LinkEv::Uses(used_link@), k);
                                    assert(s[j] == s0[j]);
                                } else {
                                    match old_entry.1 {
                                        LinkState::Defined => {},
                                        LinkState::Undefined(v) => {
                                            let nv = s[j].1->Undefined_0;
                                            assert(nv@ == v@.push(used_link));
                                            assert(usage_evs(nv@) =~= usage_evs(v@).push(
                                                LinkEv::Uses(used_link@),
                                            ));
                                        },
                                    }
                                }
                            }
                            assert forall|k: HrefV| #[trigger] touched(m, k) implies key_present(
                                s,
                                k,
                            ) by {
                                lemma_uses_of_insert(m0, LinkEv::Uses(used_link@), k);
                                if k == h {
                                    assert(key_at(s, i as int) == h);
                                } else {
                                    assert(touched(m0, k));
                                    let w = choose|w: int|
                                        0 <= w < s0.len() && key_at(s0, w) == k;
                                    assert(key_at(s, w) == k);
                                }
                            }
                        }
                    },
                    Option::None => {
                        let href = used_link.href.duplicate();
                        let mut v: Vec<UsedLink> = Vec::new();
                        v.push(used_link);
                        self.links.push((href, LinkState::Undefined(v)));
                        proof {
                            let s = self.links@;
                            let n = s0.len() as int;
                            assert(s == s0.push((href, LinkState::Undefined(v))));
                            assert(keys_unique(s)) by {
                                assert forall|a: int, b: int| 0 <= a < b < s.len() implies key_at(
                                    s,
                                    a,
                                ) != key_at(s, b) by {
                                    if b < n {
                                        assert(key_at(s, a) == key_at(s0, a));
                                        assert(key_at(s, b) == key_at(s0, b));
                                    } else {
                                        assert(key_at(s, a) == key_at(s0, a));
                                        assert(key_at(s, b) == h);
                                        assert(!key_present(s0, h));
                                    }
                                }
                            }
                            lemma_uses_of_insert(m0, LinkEv::Uses(used_link@), h);
                            assert(!touched(m0, h));
                            lemma_untouched_uses_empty(m0, h);
                            assert forall|j: int|
                                #![trigger key_at(s, j)]
                                0 <= j < s.len() implies entry_ok(m, key_at(s, j), s[j].1) by {
                                let k = key_at(s, j);
                                if j < n {
                                    assert(entry_ok(m0, key_at(s0, j), s0[j].1));
                                    assert(k != h);
                                    lemma_uses_of_insert(m0, LinkEv::Uses(used_link@), k);
                                    assert(s[j] == s0[j]);
                                } else {
                                    assert(k == h);
                                    assert(usage_evs(v@) =~= Seq::<LinkEv>::empty().push(
                                        LinkEv::Uses(used_link@),
                                    ));
                                    assert(Seq::<LinkEv>::empty().to_multiset().len() == 0);
                                    lemma_len_zero_empty(Seq::<LinkEv>::empty().to_multiset());
                                    assert(usage_evs(v@).to_multiset() =~= uses_of(m, h));
                                }
                            }
                            assert forall|k: HrefV| #[trigger] touched(m, k) implies key_present(
                                s,
                                k,
                            ) by {
                                lemma_uses_of_insert(m0, LinkEv::Uses(used_link@), k);
                                if k == h {
                                    assert(key_at(s, n) == h);
                                } else {
                                    assert(touched(m0, k));
                                    let w = choose|w: int|
                                        0 <= w < s0.len() && key_at(s0, w) == k;
                                    assert(key_at(s, w) == k);
                                }
                            }
                        }
                    },
                }
            },
            Link::Defines(defined_link) => {
                let ghost h = defined_link.href@;
                proof {
                    lemma_uses_len_insert(m0, ev(Link::Defines(defined_link)));
                    assert forall|k: HrefV| true implies #[trigger] uses_of(m, k) == uses_of(
                        m0,
                        k,
                    ) by {
                        lemma_uses_of_insert(m0, LinkEv::Defines(h), k);
                    }
                    lemma_has_defines_insert(m0, LinkEv::Defines(h), h);
                }
                match find_key(&self.links, &defined_link.href) {
                    Option::Some(i) => {
                        self.links[i].1 = LinkState::Defined;
                        proof {
                            let s = self.links@;
                            assert(s == s0.update(i as int, (s0[i as int].0, LinkState::Defined)));
                            assert(keys_unique(s)) by {
                                assert forall|a: int, b: int| 0 <= a < b < s.len() implies key_at(
                                    s,
                                    a,
                                ) != key_at(s, b) by {
                                    assert(key_at(s, a) == key_at(s0, a));
                                    assert(key_at(s, b) == key_at(s0, b));
                                }
                            }
                            assert forall|j: int|
                                #![trigger key_at(s, j)]
                                0 <= j < s.len() implies entry_ok(m, key_at(s, j), s[j].1) by {
                                let k = key_at(s, j);
                                assert(entry_ok(m0, key_at(s0, j), s0[j].1));
                                if j != i {
                                    assert(k != h);
                                    lemma_has_defines_insert(m0, LinkEv::Defines(h), k);
                                    assert(s[j] == s0[j]);
                                }
                            }
                            assert forall|k: HrefV| #[trigger] touched(m, k) implies key_present(
                                s,
                                k,
                            ) by {
                                lemma_has_defines_insert(m0, LinkEv::Defines(h), k);
                                if k == h {
                                    assert(key_at(s, i as int) == h);
                                } else {
                                    assert(touched(m0, k));
                                    let w = choose|w: int|
                                        0 <= w < s0.len() && key_at(s0, w) == k;
                                    assert(key_at(s, w) == k);
                                }
                            }
                        }
                    },
                    Option::None => {
                        self.links.push((defined_link.href, LinkState::Defined));
                        proof {
                            let s = self.links@;
                            let n = s0.len() as int;
                            assert(keys_unique(s)) by {
                                assert forall|a: int, b: int| 0 <= a < b < s.len() implies key_at(
                                    s,
                                    a,
                                ) != key_at(s, b) by {
                                    if b < n {
                                        assert(key_at(s, a) == key_at(s0, a));
                                        assert(key_at(s, b) == key_at(s0, b));
                                    } else {
                                        assert(key_at(s, a) == key_at(s0, a));
                                        assert(key_at(s, b) == h);
                                        assert(!key_present(s0, h));
                                    }
                                }
                            }
                            assert forall|j: int|
                                #![trigger key_at(s, j)]
                                0 <= j < s.len() implies entry_ok(m, key_at(s, j), s[j].1) by {
                                let k = key_at(s, j);
                                if j < n {
                                    assert(entry_ok(m0, key_at(s0, j), s0[j].1));
                                    assert(k != h);
                                    lemma_has_defines_insert(m0, LinkEv::Defines(h), k);
                                    assert(s[j] == s0[j]);
                                } else {
                                    assert(k == h);
                                    lemma_has_defines_insert(m0, LinkEv::Defines(h), h);
                                }
                            }
                            assert forall|k: HrefV| #[trigger] touched(m, k) implies key_present(
                                s,
                                k,
                            ) by {
                                lemma_has_defines_insert(m0, LinkEv::Defines(h), k);
                                if k == h {
                                    assert(key_at(s, n) == h);
                                } else {
                                    assert(touched(m0, k));
                                    let w = choose|w: int|
                                        0 <= w < s0.len() && key_at(s0, w) == k;
                                    assert(key_at(s, w) == k);
                                }
                            }
                        }
                    },
                }
            },
        }
    }

    fn merge(&mut self, other: Self) {
        let mut other = other;
        let ghost m1 = self.events@;
        let ghost m2 = other.events@;
        let ghost m = m1.add(m2);
        proof {
            self.events@ = m;
            lemma_uses_len_add(m1, m2);
        }
        self.used_link_count = self.used_link_count + other.used_link_count;
        proof {
            assert forall|j: int|
                #![trigger key_at(self.links@, j)]
                0 <= j < self.links@.len() implies (if key_present(
                other.links@,
                key_at(self.links@, j),
            ) {
                entry_ok(m1, key_at(self.links@, j), self.links@[j].1)
            } else {
                entry_ok(m, key_at(self.links@, j), self.links@[j].1)
            }) by {
                let k = key_at(self.links@, j);
                assert(entry_ok(m1, k, self.links@[j].1));
                if !key_present(other.links@, k) {
                    if touched(m2, k) {
                        assert(key_present(other.links@, k));
                    }
                    lemma_has_defines_add(m1, m2, k);
                    lemma_uses_of_add(m1, m2, k);
                    lemma_untouched_uses_empty(m2, k);
                    assert(uses_of(m, k) =~= uses_of(m1, k));
                }
            }
        }
        while other.links.len() > 0
            invariant
                self.events@ == m,
                m == m1.add(m2),
                self.used_link_count == uses_len(m),
                keys_unique(self.links@),
                keys_unique(other.links@),
                forall|j: int|
                    #![trigger key_at(self.links@, j)]
                    0 <= j < self.links@.len() ==> (if key_present(
                        other.links@,
                        key_at(self.links@, j),
                    ) {
                        entry_ok(m1, key_at(self.links@, j), self.links@[j].1)
                    } else {
                        entry_ok(m, key_at(self.links@, j), self.links@[j].1)
                    }),
                forall|j: int|
                    #![trigger key_at(other.links@, j)]
                    0 <= j < other.links@.len() ==> entry_ok(
                        m2,
                        key_at(other.links@, j),
                        other.links@[j].1,
                    ),
                forall|h: HrefV| #[trigger] touched(m1, h) ==> key_present(self.links@, h),
                forall|h: HrefV| #[trigger] touched(m2, h) ==> key_present(self.links@, h)
                    || key_present(other.links@, h),
            decreases other.links@.len(),
        {
            let ghost so0 = other.links@;
            let ghost ss0 = self.links@;
            let (href2, st2) = other.links.pop().unwrap();
            let ghost h = href2@;
            proof {
                assert(so0[so0.len() - 1] == (href2, st2));
                assert(key_at(so0, so0.len() - 1) == h);
                assert(entry_ok(m2, h, st2));
                // h does not occur in the remaining other entries
                assert forall|j: int| 0 <= j < other.links@.len() implies key_at(
                    other.links@,
                    j,
                ) != h by {
                    assert(key_at(so0, j) == key_at(other.links@, j));
                }
                assert(keys_unique(other.links@)) by {
                    assert forall|a: int, b: int|
                        0 <= a < b < other.links@.len() implies key_at(other.links@, a)
                        != key_at(other.links@, b) by {
                        assert(key_at(other.links@, a) == key_at(so0, a));
                        assert(key_at(other.links@, b) == key_at(so0, b));
                    }
                }
                assert forall|j: int|
                    #![trigger key_at(other.links@, j)]
                    0 <= j < other.links@.len() implies entry_ok(
                    m2,
                    key_at(other.links@, j),
                    other.links@[j].1,
                ) by {
                    assert(other.links@[j] == so0[j]);
                    assert(key_at(so0, j) == key_at(other.links@, j));
                }
                lemma_has_defines_add(m1, m2, h);
                lemma_uses_of_add(m1, m2, h);
            }
            match find_key(&self.links, &href2) {
                Option::Some(i) => {
                    self.links[i].1.update(st2);
                    proof {
                        let s = self.links@;
                        let ghost st1 = ss0[i as int].1;
                        assert(s == ss0.update(i as int, (ss0[i as int].0, s[i as int].1)));
                        assert(keys_unique(s)) by {
                            assert forall|a: int, b: int| 0 <= a < b < s.len() implies key_at(
                                s,
                                a,
                            ) != key_at(s, b) by {
                                assert(key_at(s, a) == key_at(ss0, a));
                                assert(key_at(s, b) == key_at(ss0, b));
                            }
                        }
                        assert(key_present(so0, h)) by {
                            assert(key_at(so0, so0.len() - 1) == h);
                        }
                        assert(entry_ok(m1, h, st1));
                        // the merged entry is correct under the full multiset
                        assert(entry_ok(m, h, s[i as int].1)) by {
                            match st1 {
                                LinkState::Defined => {},
                                LinkState::Undefined(v1) => {
                                    match st2 {
                                        LinkState::Defined => {},
                                        LinkState::Undefined(v2) => {
                                            let nv = s[i as int].1->Undefined_0;
                                            assert(nv@ == v1@ + v2@);
                                            assert(usage_evs(nv@) =~= usage_evs(v1@) + usage_evs(
                                                v2@,
                                            ));
                                            lemma_multiset_commutative(
                                                usage_evs(v1@),
                                                usage_evs(v2@),
                                            );
                                        },
                                    }
                                },
                            }
                        }
                        assert forall|j: int|
                            #![trigger key_at(s, j)]
                            0 <= j < s.len() implies (if key_present(
                            other.links@,
                            key_at(s, j),
                        ) {
                            entry_ok(m1, key_at(s, j), s[j].1)
                        } else {
                            entry_ok(m, key_at(s, j), s[j].1)
                        }) by {
                            let k = key_at(s, j);
                            assert(key_at(ss0, j) == k);
                            if j == i {
                                assert(k == h);
                                assert(!key_present(other.links@, k));
                            } else {
                                assert(s[j] == ss0[j]);
                                assert(k != h) by {
                                    assert(key_at(ss0, i as int) == h);
                                }
                                if key_present(other.links@, k) {
                                    assert(key_present(so0, k)) by {
                                        let w = choose|w: int|
                                            0 <= w < other.links@.len() && key_at(
                                                other.links@,
                                                w,
                                            ) == k;
                                        assert(key_at(so0, w) == k);
                                    }
                                } else {
                                    if key_present(so0, k) {
                                        let w = choose|w: int|
                                            0 <= w < so0.len() && key_at(so0, w) == k;
                                        assert(w == so0.len() - 1 || key_at(other.links@, w)
                                            == k);
                                        assert(false);
                                    }
                                }
                            }
                        }
                        assert forall|k: HrefV| #[trigger] touched(m1, k) implies key_present(
                            s,
                            k,
                        ) by {
                            let w = choose|w: int| 0 <= w < ss0.len() && key_at(ss0, w) == k;
                            assert(key_at(s, w) == k);
                        }
                        assert forall|k: HrefV| #[trigger] touched(m2, k) implies key_present(
                            s,
                            k,
                        ) || key_present(other.links@, k) by {
                            if key_present(ss0, k) {
                                let w = choose|w: int| 0 <= w < ss0.len() && key_at(ss0, w) == k;
                                assert(key_at(s, w) == k);
                            }
                            if key_present(so0, k) && !key_present(other.links@, k) {
                                let w = choose|w: int| 0 <= w < so0.len() && key_at(so0, w) == k;
                                if w < so0.len() - 1 {
                                    assert(key_at(other.links@, w) == k);
                                } else {
                                    assert(k == h);
                                    assert(key_at(s, i as int) == h);
                                }
                            }
                        }
                    }
                },
                Option::None => {
                    self.links.push((href2, st2));
                    proof {
                        let s = self.links@;
                        let n = ss0.len() as int;
                        assert(s == ss0.push((href2, st2)));
                        assert(!touched(m1, h));
                        lemma_untouched_uses_empty(m1, h);
                        assert(keys_unique(s)) by {
                            assert forall|a: int, b: int| 0 <= a < b < s.len() implies key_at(
                                s,
                                a,
                            ) != key_at(s, b) by {
                                if b < n {
                                    assert(key_at(s, a) == key_at(ss0, a));
                                    assert(key_at(s, b) == key_at(ss0, b));
                                } else {
                                    assert(key_at(s, a) == key_at(ss0, a));
                                    assert(key_at(s, b) == h);
                                }
                            }
                        }
                        assert(entry_ok(m, h, st2)) by {
                            match st2 {
                                LinkState::Defined => {},
                                LinkState::Undefined(v2) => {
                                    assert(uses_of(m, h) =~= uses_of(m2, h));
                                },
                            }
                        }
                        assert forall|j: int|
                            #![trigger key_at(s, j)]
                            0 <= j < s.len() implies (if key_present(
                            other.links@,
                            key_at(s, j),
                        ) {
                            entry_ok(m1, key_at(s, j), s[j].1)
                        } else {
                            entry_ok(m, key_at(s, j), s[j].1)
                        }) by {
                            let k = key_at(s, j);
                            if j < n {
                                assert(key_at(ss0, j) == k);
                                assert(s[j] == ss0[j]);
                                if key_present(other.links@, k) {
                                    let w = choose|w: int|
                                        0 <= w < other.links@.len() && key_at(other.links@, w)
                                            == k;
                                    assert(key_at(so0, w) == k);
                                } else {
                                    if key_present(so0, k) {
                                        let w = choose|w: int|
                                            0 <= w < so0.len() && key_at(so0, w) == k;
                                        if w < so0.len() - 1 {
                                            assert(key_at(other.links@, w) == k);
                                            assert(false);
                                        } else {
                                            assert(k == h);
                                            assert(false);
                                        }
                                    }
                                }
                            } else {
                                assert(k == h);
                                assert(!key_present(other.links@, h));
                            }
                        }
                        assert forall|k: HrefV| #[trigger] touched(m1, k) implies key_present(
                            s,
                            k,
                        ) by {
                            let w = choose|w: int| 0 <= w < ss0.len() && key_at(ss0, w) == k;
                            assert(key_at(s, w) == k);
                        }
                        assert forall|k: HrefV| #[trigger] touched(m2, k) implies key_present(
                            s,
                            k,
                        ) || key_present(other.links@, k) by {
                            if key_present(ss0, k) {
                                let w = choose|w: int| 0 <= w < ss0.len() && key_at(ss0, w) == k;
                                assert(key_at(s, w) == k);
                            } else if key_present(so0, k) {
                                let w = choose|w: int| 0 <= w < so0.len() && key_at(so0, w) == k;
                                if w < so0.len() - 1 {
                                    assert(key_at(other.links@, w) == k);
                                } else {
                                    assert(k == h);
                                    assert(key_at(s, n) == h);
                                }
                            }
                        }
                    }
                },
            }
        }
        proof {
            let s = self.links@;
            assert forall|j: int|
                #![trigger key_at(s, j)]
                0 <= j < s.len() implies entry_ok(m, key_at(s, j), s[j].1) by {
                assert(!key_present(other.links@, key_at(s, j)));
            }
            assert forall|h: HrefV| #[trigger] touched(m, h) implies key_present(s, h) by {
                lemma_has_defines_add(m1, m2, h);
                lemma_uses_of_add(m1, m2, h);
                assert(touched(m1, h) || touched(m2, h));
                assert(!key_present(other.links@, h));
            }
        }
    }
}

/// One broken-link finding: a recorded use of an undefined target, classified
/// hard (target page missing) or soft (page exists, anchor missing).
#[derive(Debug)]
pub struct BrokenLink {
    pub hard_404: bool,
    pub used_link: UsedLink,
}

/// Mathematical image of a [`BrokenLink`].
pub struct BrokenLinkV {
    pub hard_404: bool,
    pub used_link: UsedLinkV,
}

impl View for BrokenLink {
    type V = BrokenLinkV;

    open spec fn view(&self) -> BrokenLinkV {
        BrokenLinkV { hard_404: self.hard_404, used_link: self.used_link@ }
    }
}

/// The path-only projection of a target.
pub open spec fn strip_anchor(h: HrefV) -> HrefV {
    HrefV { path: h.path, anchor: Option::None }
}

/// Classification policy: with anchor checking disabled every undefined
/// target is hard; otherwise a use is hard exactly when even the
/// anchor-stripped target is undefined.
pub open spec fn spec_hard_404(m: Multiset<LinkEv>, check_anchors: bool, h: HrefV) -> bool {
    !check_anchors || !has_defines(m, strip_anchor(h))
}

/// A finding is sound: it reports a recorded use of a target that no
/// `Defines` event names, with the classification the policy dictates.
pub open spec fn finding_ok(m: Multiset<LinkEv>, check_anchors: bool, f: BrokenLinkV) -> bool {
    &&& m.count(LinkEv::Uses(f.used_link)) > 0
    &&& !has_defines(m, f.used_link.href)
    &&& f.hard_404 == spec_hard_404(m, check_anchors, f.used_link.href)
}

/// The use events that a sequence of findings reports.
pub open spec fn found_evs(r: Seq<BrokenLink>) -> Seq<LinkEv> {
    r.map_values(|b: BrokenLink| LinkEv::Uses(b.used_link@))
}

/// Have the first `i` table entries handled target `h`?
pub open spec fn processed(s: Seq<(Href, LinkState)>, i: int, h: HrefV) -> bool {
    exists|j: int| 0 <= j < i && key_at(s, j) == h
}

impl BrokenLinkCollector {
    /// Classifies every recorded use of an undefined target, fanned out one
    /// finding per use.  A target with a `Defines` event anywhere in the
    /// input never yields a finding, and each use of a broken target yields
    /// exactly one finding, whatever order events and merges happened in.
    pub fn get_broken_links(&self, check_anchors: bool) -> (r: Vec<BrokenLink>)
        requires
            self.inv(),
        ensures
            forall|k: int|
                0 <= k < r@.len() ==> finding_ok(self.events@, check_anchors, #[trigger] r@[k]@),
            forall|u: UsedLinkV|
                !has_defines(self.events@, u.href) ==> #[trigger] found_evs(
                    r@,
                ).to_multiset().count(LinkEv::Uses(u)) == self.events@.count(LinkEv::Uses(u)),
    {
        let ghost m = self.events@;
        let ghost s = self.links@;
        let mut broken: Vec<BrokenLink> = Vec::new();
        proof {
            assert(found_evs(broken@) =~= Seq::<LinkEv>::empty());
            assert(found_evs(broken@).to_multiset().len() == 0);
            lemma_len_zero_empty(found_evs(broken@).to_multiset());
        }
        let mut i: usize = 0;
        while i < self.links.len()
            invariant
                self.inv(),
                m == self.events@,
                s == self.links@,
                i <= s.len(),
                forall|k: int|
                    0 <= k < broken@.len() ==> finding_ok(m, check_anchors, #[trigger] broken@[k]@),
                forall|u: UsedLinkV|
                    !has_defines(m, u.href) ==> #[trigger] found_evs(
                        broken@,
                    ).to_multiset().count(LinkEv::Uses(u)) == (if processed(s, i as int, u.href) {
                        m.count(LinkEv::Uses(u))
                    } else {
                        0
                    }),
            decreases s.len() - i,
        {
            let ghost h = key_at(s, i as int);
            let ghost broken0 = broken@;
            proof {
                assert(entry_ok(m, h, s[i as int].1));
                // h has not been handled before: keys are unique
                assert(!processed(s, i as int, h)) by {
                    if processed(s, i as int, h) {
                        let w = choose|w: int| 0 <= w < i && key_at(s, w) == h;
                        assert(key_at(s, w) != key_at(s, i as int));
                    }
                }
            }
            let entry = &self.links[i];
            match &entry.1 {
                LinkState::Defined => {
                    proof {
                        assert forall|u: UsedLinkV| !has_defines(m, u.href) implies #[trigger]
                            found_evs(broken@).to_multiset().count(LinkEv::Uses(u)) == (if
                            processed(s, i + 1, u.href) {
                            m.count(LinkEv::Uses(u))
                        } else {
                            0
                        }) by {
                            assert(u.href != h);
                            if processed(s, i + 1, u.href) {
                                let w = choose|w: int|
                                    0 <= w < i + 1 && key_at(s, w) == u.href;
                                assert(w < i);
                                assert(processed(s, i as int, u.href));
                            }
                        }
                    }
                },
                LinkState::Undefined(v) => {
                    let hard_404 = if check_anchors {
                        let stripped = entry.0.without_anchor();
                        proof {
                            assert(stripped@ == strip_anchor(h));
                        }
                        match find_key(&self.links, &stripped) {
                            Option::Some(idx) => {
                                let is_defined = match &self.links[idx].1 {
                                    LinkState::Defined => true,
                                    LinkState::Undefined(_) => false,
                                };
                                proof {
                                    assert(entry_ok(m, key_at(s, idx as int), s[idx as int].1));
                                }
                                !is_defined
                            },
                            Option::None => {
                                proof {
                                    if touched(m, strip_anchor(h)) {
                                        assert(key_present(s, strip_anchor(h)));
                                    }
                                }
                                true
                            },
                        }
                    } else {
                        true
                    };
                    proof {
                        assert(hard_404 == spec_hard_404(m, check_anchors, h));
                        assert(usage_evs(v@).to_multiset() == uses_of(m, h));
                    }
                    let mut j: usize = 0;
                    while j < v.len()
                        invariant
                            j <= v@.len(),
                            usage_evs(v@).to_multiset() == uses_of(m, h),
                            !has_defines(m, h),
                            hard_404 == spec_hard_404(m, check_anchors, h),
                            found_evs(broken@).to_multiset() == found_evs(
                                broken0,
                            ).to_multiset().add(usage_evs(v@.take(j as int)).to_multiset()),
                            forall|k: int|
                                0 <= k < broken@.len() ==> finding_ok(
                                    m,
                                    check_anchors,
                                    #[trigger] broken@[k]@,
                                ),
                        decreases v@.len() - j,
                    {
                        let ghost prev = broken@;
                        proof {
                            // the j-th use belongs to target h and occurs in m
                            assert(usage_evs(v@)[j as int] == LinkEv::Uses(v@[j as int]@));
                            assert(usage_evs(v@).contains(LinkEv::Uses(v@[j as int]@)));
                            assert(uses_of(m, h).count(LinkEv::Uses(v@[j as int]@)) > 0);
                            assert(is_use_of(LinkEv::Uses(v@[j as int]@), h));
                            assert(v@[j as int]@.href == h);
                            assert(m.count(LinkEv::Uses(v@[j as int]@)) == uses_of(m, h).count(
                                LinkEv::Uses(v@[j as int]@),
                            ));
                        }
                        let used_link = v[j].duplicate();
                        broken.push(BrokenLink { hard_404, used_link });
                        proof {
                            assert(found_evs(broken@) =~= found_evs(prev).push(
                                LinkEv::Uses(v@[j as int]@),
                            ));
                            assert(usage_evs(v@.take(j + 1)) =~= usage_evs(
                                v@.take(j as int),
                            ).push(LinkEv::Uses(v@[j as int]@)));
                            assert(found_evs(broken@).to_multiset() =~= found_evs(
                                broken0,
                            ).to_multiset().add(usage_evs(v@.take(j + 1)).to_multiset()));
                        }
                        j += 1;
                    }
                    proof {
                        assert(v@.take(v@.len() as int) =~= v@);
                        assert forall|u: UsedLinkV| !has_defines(m, u.href) implies #[trigger]
                            found_evs(broken@).to_multiset().count(LinkEv::Uses(u)) == (if
                            processed(s, i + 1, u.href) {
                            m.count(LinkEv::Uses(u))
                        } else {
                            0
                        }) by {
                            let c0 = found_evs(broken0).to_multiset().count(LinkEv::Uses(u));
                            let cadd = uses_of(m, h).count(LinkEv::Uses(u));
                            if u.href == h {
                                assert(!processed(s, i as int, u.href));
                                assert(c0 == 0);
                                assert(cadd == m.count(LinkEv::Uses(u)));
                                assert(key_at(s, i as int) == u.href);
                                assert(processed(s, i + 1, u.href));
                            } else {
                                assert(cadd == 0);
                                if processed(s, i + 1, u.href) {
                                    let w = choose|w: int|
                                        0 <= w < i + 1 && key_at(s, w) == u.href;
                                    assert(w < i);
                                    assert(processed(s, i as int, u.href));
                                } else {
                                    if processed(s, i as int, u.href) {
                                        let w = choose|w: int|
                                            0 <= w < i && key_at(s, w) == u.href;
                                        assert(processed(s, i + 1, u.href));
                                    }
                                }
                            }
                        }
                    }
                },
            }
            i += 1;
        }
        proof {
            assert forall|u: UsedLinkV| !has_defines(m, u.href) implies #[trigger] found_evs(
                broken@,
            ).to_multiset().count(LinkEv::Uses(u)) == m.count(LinkEv::Uses(u)) by {
                if processed(s, s.len() as int, u.href) {
                } else {
                    assert(!key_present(s, u.href));
                    if touched(m, u.href) {
                        assert(key_present(s, u.href));
                    }
                    lemma_untouched_uses_empty(m, u.href);
                    assert(is_use_of(LinkEv::Uses(u), u.href));
                    assert(m.count(LinkEv::Uses(u)) == uses_of(m, u.href).count(LinkEv::Uses(u)));
                }
            }
        }
        broken
    }

    /// How many use events this collector has absorbed.
    pub fn used_links_count(&self) -> (r: usize)
        requires
            self.inv(),
        ensures
            r == uses_len(self.events@),
    {
        self.used_link_count
    }
}

/// Law: merge order is irrelevant.  Combining event multisets is commutative
/// and associative, and both the defined-ness and the recorded uses of every
/// target distribute over the combination; since a well-formed collector's
/// table is determined by its event multiset (its invariant), any partition
/// of the events into independently built collectors, merged in any order,
/// yields the same (target, is-defined, usage-multiset) triples as direct
/// ingestion.
pub proof fn lemma_merge_order_irrelevant(
    a: Multiset<LinkEv>,
    b: Multiset<LinkEv>,
    c: Multiset<LinkEv>,
    h: HrefV,
)
    ensures
        a.add(b) == b.add(a),
        a.add(b).add(c) == a.add(b.add(c)),
        has_defines(a.add(b), h) == (has_defines(a, h) || has_defines(b, h)),
        uses_of(a.add(b), h) == uses_of(a, h).add(uses_of(b, h)),
{
    assert(a.add(b) =~= b.add(a));
    assert(a.add(b).add(c) =~= a.add(b.add(c)));
    lemma_has_defines_add(a, b, h);
    lemma_uses_of_add(a, b, h);
}

/// Law: defined wins.  A target named by at least one `Defines` event
/// anywhere in the input is never the subject of a finding, regardless of
/// how `Defines` and `Uses` events were interleaved or assigned to workers.
pub proof fn lemma_defined_wins(m: Multiset<LinkEv>, check_anchors: bool, f: BrokenLinkV)
    requires
        finding_ok(m, check_anchors, f),
    ensures
        !has_defines(m, f.used_link.href),
{
}

/// Is `h` a broken target of the given severity: used at least once, never
/// defined, and classified `hard` by the anchor policy?
pub open spec fn spec_broken(
    m: Multiset<LinkEv>,
    check_anchors: bool,
    hard: bool,
    h: HrefV,
) -> bool {
    &&& uses_of(m, h).len() > 0
    &&& !has_defines(m, h)
    &&& spec_hard_404(m, check_anchors, h) == hard
}

/// Does table entry `i` describe a broken target of the given severity?
pub open spec fn entry_broken(
    s: Seq<(Href, LinkState)>,
    m: Multiset<LinkEv>,
    check_anchors: bool,
    hard: bool,
    i: int,
) -> bool {
    &&& s[i].1 matches LinkState::Undefined(v) && v@.len() > 0
    &&& spec_hard_404(m, check_anchors, key_at(s, i)) == hard
}

/// The number of broken targets of the given severity among the first `i`
/// table entries.
pub open spec fn count_broken(
    s: Seq<(Href, LinkState)>,
    m: Multiset<LinkEv>,
    check_anchors: bool,
    hard: bool,
    i: int,
) -> int
    decreases i,
{
    if i <= 0 {
        0
    } else {
        count_broken(s, m, check_anchors, hard, i - 1) + (if entry_broken(
            s,
            m,
            check_anchors,
            hard,
            i - 1,
        ) {
            1int
        } else {
            0int
        })
    }
}

impl BrokenLinkCollector {
    /// Counts the distinct broken targets, hard and soft, under the given
    /// anchor policy.  The counts are zero exactly when no broken target of
    /// the respective severity exists in the absorbed events.
    pub fn broken_counts(&self, check_anchors: bool) -> (r: (usize, usize))
        requires
            self.inv(),
        ensures
            r.0 == count_broken(
                self.links@,
                self.events@,
                check_anchors,
                true,
                self.links@.len() as int,
            ),
            r.1 == count_broken(
                self.links@,
                self.events@,
                check_anchors,
                false,
                self.links@.len() as int,
            ),
            (r.0 > 0) == exists|h: HrefV| spec_broken(self.events@, check_anchors, true, h),
            (r.1 > 0) == exists|h: HrefV| spec_broken(self.events@, check_anchors, false, h),
    {
        let ghost m = self.events@;
        let ghost s = self.links@;
        let mut hard_count: usize = 0;
        let mut soft_count: usize = 0;
        let mut i: usize = 0;
        while i < self.links.len()
            invariant
                self.inv(),
                m == self.events@,
                s == self.links@,
                i <= s.len(),
                hard_count == count_broken(s, m, check_anchors, true, i as int),
                soft_count == count_broken(s, m, check_anchors, false, i as int),
                hard_count + soft_count <= i,
                (hard_count > 0) ==> exists|h: HrefV| spec_broken(m, check_anchors, true, h),
                (soft_count > 0) ==> exists|h: HrefV| spec_broken(m, check_anchors, false, h),
                forall|j: int|
                    0 <= j < i && entry_broken(s, m, check_anchors, true, j) ==> hard_count > 0,
                forall|j: int|
                    0 <= j < i && entry_broken(s, m, check_anchors, false, j) ==> soft_count > 0,
            decreases s.len() - i,
        {
            let ghost h = key_at(s, i as int);
            proof {
                assert(entry_ok(m, h, s[i as int].1));
            }
            let entry = &self.links[i];
            let is_broken = match &entry.1 {
                LinkState::Defined => false,
                LinkState::Undefined(v) => v.len() > 0,
            };
            if is_broken {
                let hard_404 = if check_anchors {
                    let stripped = entry.0.without_anchor();
                    proof {
                        assert(stripped@ == strip_anchor(h));
                    }
                    match find_key(&self.links, &stripped) {
                        Option::Some(idx) => {
                            let is_defined = match &self.links[idx].1 {
                                LinkState::Defined => true,
                                LinkState::Undefined(_) => false,
                            };
                            proof {
                                assert(entry_ok(m, key_at(s, idx as int), s[idx as int].1));
                            }
                            !is_defined
                        },
                        Option::None => {
                            proof {
                                if touched(m, strip_anchor(h)) {
                                    assert(key_present(s, strip_anchor(h)));
                                }
                            }
                            true
                        },
                    }
                } else {
                    true
                };
                proof {
                    assert(hard_404 == spec_hard_404(m, check_anchors, h));
                    let v = s[i as int].1->Undefined_0;
                    assert(usage_evs(v@).to_multiset() == uses_of(m, h));
                    assert(usage_evs(v@).len() == v@.len());
                    assert(uses_of(m, h).len() > 0);
                    assert(spec_broken(m, check_anchors, hard_404, h));
                }
                if hard_404 {
                    hard_count = hard_count + 1;
                } else {
                    soft_count = soft_count + 1;
                }
            }
            i += 1;
        }
        proof {
            if exists|h: HrefV| spec_broken(m, check_anchors, true, h) {
                let h = choose|h: HrefV| spec_broken(m, check_anchors, true, h);
                assert(touched(m, h));
                assert(key_present(s, h));
                let w = choose|w: int| 0 <= w < s.len() && key_at(s, w) == h;
                assert(entry_ok(m, h, s[w].1));
                match s[w].1 {
                    LinkState::Defined => {
                        assert(false);
                    },
                    LinkState::Undefined(v) => {
                        assert(usage_evs(v@).to_multiset().len() == uses_of(m, h).len());
                        assert(usage_evs(v@).len() == v@.len());
                        assert(v@.len() > 0);
                    },
                }
                assert(entry_broken(s, m, check_anchors, true, w));
            }
            if exists|h: HrefV| spec_broken(m, check_anchors, false, h) {
                let h = choose|h: HrefV| spec_broken(m, check_anchors, false, h);
                assert(touched(m, h));
                assert(key_present(s, h));
                let w = choose|w: int| 0 <= w < s.len() && key_at(s, w) == h;
                assert(entry_ok(m, h, s[w].1));
                match s[w].1 {
                    LinkState::Defined => {
                        assert(false);
                    },
                    LinkState::Undefined(v) => {
                        assert(usage_evs(v@).to_multiset().len() == uses_of(m, h).len());
                        assert(usage_evs(v@).len() == v@.len());
                        assert(v@.len() > 0);
                    },
                }
                assert(entry_broken(s, m, check_anchors, false, w));
            }
        }
        (hard_count, soft_count)
    }
}

} // verus!
