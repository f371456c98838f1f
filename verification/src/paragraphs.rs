//! Paragraph fingerprint index.
//!
//! Built once from the authored source tree before checking starts, the
//! index maps each paragraph fingerprint to every source document that
//! contains a paragraph with that fingerprint.  Multiple documents may share
//! a fingerprint (includes, templating) and all of them are retained.

use vstd::prelude::*;

use crate::model::Fingerprint;

verus! {

/// The (fingerprint, source document) associations an index holds.
pub open spec fn pair_in(
    s: Seq<(Fingerprint, Vec<Vec<u8>>)>,
    p: Fingerprint,
    path: Seq<u8>,
) -> bool {
    exists|i: int, j: int|
        0 <= i < s.len() && 0 <= j < s[i].1@.len() && s[i].0 == p && s[i].1@[j]@ == path
}

/// Does the index know the fingerprint `p` at all?
pub open spec fn fp_in(s: Seq<(Fingerprint, Vec<Vec<u8>>)>, p: Fingerprint) -> bool {
    exists|i: int| 0 <= i < s.len() && s[i].0 == p
}

/// Maps each paragraph fingerprint to the source documents that contain a
/// paragraph with that fingerprint.
pub struct FingerprintIndex {
    pub entries: Vec<(Fingerprint, Vec<Vec<u8>>)>,
}

impl FingerprintIndex {
    /// Fingerprints are unique keys and every known fingerprint lists at
    /// least one source document.
    pub open spec fn wf(&self) -> bool {
        &&& forall|i: int, j: int|
            0 <= i < j < self.entries@.len() ==> (#[trigger] self.entries@[i]).0 != (
            #[trigger] self.entries@[j]).0
        &&& forall|i: int| 0 <= i < self.entries@.len() ==> (#[trigger] self.entries@[i]).1@.len() > 0
    }

    /// An index that knows no fingerprints.
    pub fn new() -> (r: FingerprintIndex)
        ensures
            r.wf(),
            forall|p: Fingerprint, path: Seq<u8>| !pair_in(r.entries@, p, path),
            forall|p: Fingerprint| !fp_in(r.entries@, p),
    {
        FingerprintIndex { entries: Vec::new() }
    }

    /// Records that `source` contains a paragraph with fingerprint `p`.
    pub fn insert(&mut self, p: Fingerprint, source: Vec<u8>)
        requires
            old(self).wf(),
        ensures
            final(self).wf(),
            forall|q: Fingerprint, path: Seq<u8>|
                pair_in(final(self).entries@, q, path) == (pair_in(old(self).entries@, q, path)
                    || (q == p && path == source@)),
            forall|q: Fingerprint|
                fp_in(final(self).entries@, q) == (fp_in(old(self).entries@, q) || q == p),
    {
        let ghost s0 = self.entries@;
        let mut i: usize = 0;
        while i < self.entries.len()
            invariant
                s0 == self.entries@,
                s0 == old(self).entries@,
                i <= s0.len(),
                forall|j: int| 0 <= j < i ==> (#[trigger] s0[j]).0 != p,
                old(self).wf(),
            decreases s0.len() - i,
        {
            if self.entries[i].0 == p {
                self.entries[i].1.push(source);
                proof {
                    let s = self.entries@;
                    assert(s == s0.update(i as int, (s0[i as int].0, s[i as int].1)));
                    assert(s[i as int].1@ == s0[i as int].1@.push(source));
                    assert forall|q: Fingerprint, path: Seq<u8>|
                        pair_in(s, q, path) == (pair_in(s0, q, path) || (q == p && path
                            == source@)) by {
                        if pair_in(s, q, path) {
                            let (a, b) = choose|a: int, b: int|
                                0 <= a < s.len() && 0 <= b < s[a].1@.len() && s[a].0 == q
                                    && s[a].1@[b]@ == path;
                            if a == i && b == s0[i as int].1@.len() {
                                assert(q == p && path == source@);
                            } else {
                                assert(pair_in(s0, q, path));
                            }
                        }
                        if pair_in(s0, q, path) {
                            let (a, b) = choose|a: int, b: int|
                                0 <= a < s0.len() && 0 <= b < s0[a].1@.len() && s0[a].0 == q
                                    && s0[a].1@[b]@ == path;
                            assert(0 <= a < s.len() && 0 <= b < s[a].1@.len() && s[a].0 == q
                                && s[a].1@[b]@ == path);
                        }
                        if q == p && path == source@ {
                            let b = s0[i as int].1@.len() as int;
                            assert(0 <= i < s.len() && 0 <= b < s[i as int].1@.len()
                                && s[i as int].0 == q && s[i as int].1@[b]@ == path);
                        }
                    }
                    assert(self.wf()) by {
                        assert forall|a: int, b: int|
                            0 <= a < b < s.len() implies s[a].0 != s[b].0 by {
                            assert(s[a].0 == s0[a].0);
                            assert(s[b].0 == s0[b].0);
                        }
                        assert forall|a: int| 0 <= a < s.len() implies s[a].1@.len() > 0 by {
                            if a != i {
                                assert(s[a] == s0[a]);
                            }
                        }
                    }
                    assert forall|q: Fingerprint|
                        fp_in(s, q) == (fp_in(s0, q) || q == p) by {
                        if fp_in(s, q) {
                            let a = choose|a: int| 0 <= a < s.len() && s[a].0 == q;
                            assert(s0[a].0 == q);
                        }
                        if fp_in(s0, q) {
                            let a = choose|a: int| 0 <= a < s0.len() && s0[a].0 == q;
                            assert(s[a].0 == q);
                        }
                        assert(s[i as int].0 == p);
                    }
                }
                return ;
            }
            i += 1;
        }
        let mut sources: Vec<Vec<u8>> = Vec::new();
        sources.push(source);
        self.entries.push((p, sources));
        proof {
            let s = self.entries@;
            let n = s0.len() as int;
            assert(s == s0.push((p, sources)));
            assert forall|q: Fingerprint, path: Seq<u8>|
                pair_in(s, q, path) == (pair_in(s0, q, path) || (q == p && path == source@)) by {
                if pair_in(s, q, path) {
                    let (a, b) = choose|a: int, b: int|
                        0 <= a < s.len() && 0 <= b < s[a].1@.len() && s[a].0 == q && s[a].1@[b]@
                            == path;
                    if a < n {
                        assert(pair_in(s0, q, path));
                    } else {
                        assert(q == p && path == source@);
                    }
                }
                if pair_in(s0, q, path) {
                    let (a, b) = choose|a: int, b: int|
                        0 <= a < s0.len() && 0 <= b < s0[a].1@.len() && s0[a].0 == q && s0[a].1@[b]@
                            == path;
                    assert(0 <= a < s.len() && 0 <= b < s[a].1@.len() && s[a].0 == q && s[a].1@[b]@
                        == path);
                }
                if q == p && path == source@ {
                    assert(0 <= n < s.len() && 0 <= 0 < s[n].1@.len() && s[n].0 == q && s[n].1@[0]@
                        == path);
                }
            }
            assert forall|q: Fingerprint| fp_in(s, q) == (fp_in(s0, q) || q == p) by {
                if fp_in(s, q) {
                    let a = choose|a: int| 0 <= a < s.len() && s[a].0 == q;
                    if a < n {
                        assert(s0[a].0 == q);
                    }
                }
                if fp_in(s0, q) {
                    let a = choose|a: int| 0 <= a < s0.len() && s0[a].0 == q;
                    assert(s[a].0 == q);
                }
                assert(s[n].0 == p);
            }
        }
    }

    /// The source documents that share fingerprint `p`, if any; the returned
    /// list is never empty and holds exactly the documents recorded for `p`.
    pub fn lookup(&self, p: Fingerprint) -> (r: Option<&Vec<Vec<u8>>>)
        requires
            self.wf(),
        ensures
            match r {
                Option::Some(v) => {
                    &&& fp_in(self.entries@, p)
                    &&& v@.len() > 0
                    &&& forall|path: Seq<u8>|
                        pair_in(self.entries@, p, path) == exists|j: int|
                            0 <= j < v@.len() && (#[trigger] v@[j])@ == path
                },
                Option::None => !fp_in(self.entries@, p),
            },
    {
        let ghost s = self.entries@;
        let mut i: usize = 0;
        while i < self.entries.len()
            invariant
                s == self.entries@,
                i <= s.len(),
                self.wf(),
                forall|j: int| 0 <= j < i ==> (#[trigger] s[j]).0 != p,
            decreases s.len() - i,
        {
            if self.entries[i].0 == p {
                let v = &self.entries[i].1;
                proof {
                    assert(s[i as int].0 == p);
                    assert forall|path: Seq<u8>|
                        pair_in(s, p, path) == exists|j: int|
                            0 <= j < v@.len() && (#[trigger] v@[j])@ == path by {
                        if pair_in(s, p, path) {
                            let (a, b) = choose|a: int, b: int|
                                0 <= a < s.len() && 0 <= b < s[a].1@.len() && s[a].0 == p
                                    && s[a].1@[b]@ == path;
                            assert(a == i) by {
                                if a < i {
                                    assert(s[a].0 != p);
                                } else if a > i {
                                    assert(s[i as int].0 != s[a].0);
                                }
                            }
                            assert(v@[b]@ == path);
                        }
                        if exists|j: int| 0 <= j < v@.len() && (#[trigger] v@[j])@ == path {
                            let j = choose|j: int| 0 <= j < v@.len() && (#[trigger] v@[j])@ == path;
                            assert(0 <= i < s.len() && 0 <= j < s[i as int].1@.len()
                                && s[i as int].0 == p && s[i as int].1@[j]@ == path);
                        }
                    }
                }
                return Option::Some(v);
            }
            i += 1;
        }
        Option::None
    }
}

} // verus!
