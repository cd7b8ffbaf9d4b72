//! The multi-archive manager: archives indexed by a generated identifier,
//! with a compatibility check over everything it holds.

use vstd::prelude::*;
use crate::archive::Archive;
use crate::errors::Error;
use crate::strutil::str_eq;
use crate::ids;

verus! {

/// A keyed collection of archives under one save path. Each archive is
/// stored under a unique identifier so it can be found again after the
/// manager itself is saved and reloaded.
#[derive(Debug, PartialEq)]
pub struct Manager {
    /// File this manager saves to; not part of the stored form.
    pub path: String,
    /// Version of the manager's own stored form.
    pub version: u32,
    /// The identifier-archive pairs, in insertion order. Kept unique by
    /// the methods; direct writes must keep [`Manager::wf`] themselves.
    pub archives: Vec<(String, Archive)>,
}

/// Identifiers are unique across the entries.
pub open spec fn archives_unique(s: Seq<(String, Archive)>) -> bool {
    forall|i: int, j: int| 0 <= i < j < s.len() ==> (#[trigger] s[i]).0@ != (#[trigger] s[j]).0@
}

/// The version of the first entry, in insertion order, whose archive is not
/// at the compatibility version; nothing when all are.
pub open spec fn spec_first_incompat(s: Seq<(String, Archive)>) -> Option<u32>
    decreases s.len(),
{
    if s.len() == 0 {
        None
    } else if s[0].1.version != crate::VERSION_COMPAT {
        Some(s[0].1.version)
    } else {
        spec_first_incompat(s.drop_first())
    }
}

/// Where the compatible prefix reaches `i`, the first incompatible entry is
/// the one at `i`, or nothing when the prefix is the whole sequence.
pub proof fn lemma_first_incompat_char(s: Seq<(String, Archive)>, i: int)
    requires
        0 <= i <= s.len(),
        forall|k: int| 0 <= k < i ==> (#[trigger] s[k]).1.version == crate::VERSION_COMPAT,
        i < s.len() ==> s[i].1.version != crate::VERSION_COMPAT,
    ensures
        i == s.len() ==> spec_first_incompat(s) is None,
        i < s.len() ==> spec_first_incompat(s) == Some(s[i].1.version),
    decreases s.len(),
{
    if s.len() > 0 {
        if i == 0 {
            if i < s.len() {
            }
        } else {
            let t = s.drop_first();
            assert(forall|k: int|
                0 <= k < i - 1 ==> (#[trigger] t[k]).1.version == crate::VERSION_COMPAT);
            assert(i - 1 < t.len() ==> t[i - 1].1.version != crate::VERSION_COMPAT);
            lemma_first_incompat_char(t, i - 1);
        }
    }
}

impl Manager {
    /// The identifier-archive pairs, in insertion order.
    pub open spec fn archives_seq(&self) -> Seq<(String, Archive)> {
        self.archives@
    }

    pub open spec fn wf(&self) -> bool {
        &&& archives_unique(self.archives_seq())
        &&& forall|i: int|
            0 <= i < self.archives_seq().len() ==> (#[trigger] self.archives_seq()[i]).1.wf()
    }

    /// Some entry carries the identifier `id`.
    pub open spec fn spec_has(&self, id: Seq<char>) -> bool {
        exists|i: int|
            0 <= i < self.archives_seq().len() && (#[trigger] self.archives_seq()[i]).0@ == id
    }

    /// The archive at `id`, where one is present.
    pub open spec fn spec_get(&self, id: Seq<char>) -> Archive
        recommends
            self.spec_has(id),
    {
        self.archives_seq()[choose|i: int|
            0 <= i < self.archives_seq().len() && (#[trigger] self.archives_seq()[i]).0@ == id].1
    }

    /// A fresh manager at the compatibility version with no archives.
    pub fn new(path: String) -> (r: Manager)
        ensures
            r.wf(),
            r.path == path,
            r.version == crate::VERSION_COMPAT,
            r.archives_seq().len() == 0,
    {
        Manager { path, version: crate::version_compat(), archives: Vec::new() }
    }

    pub fn len(&self) -> (r: usize)
        ensures
            r == self.archives_seq().len(),
    {
        self.archives.len()
    }

    /// The entry at position `i`, in insertion order.
    pub fn archive_at(&self, i: usize) -> (r: &(String, Archive))
        requires
            i < self.archives_seq().len(),
        ensures
            *r == self.archives_seq()[i as int],
    {
        &self.archives[i]
    }

    /// Stores an archive under a caller-supplied identifier, replacing any
    /// archive already stored under it.
    pub fn insert_existing(&mut self, id: String, archive: Archive)
        requires
            old(self).wf(),
            archive.wf(),
        ensures
            final(self).wf(),
            final(self).path == old(self).path,
            final(self).version == old(self).version,
            final(self).spec_has(id@),
            final(self).spec_get(id@) == archive,
            old(self).spec_has(id@) ==> exists|i: int|
                #![auto]
                0 <= i < old(self).archives_seq().len() && old(self).archives_seq()[i].0@ == id@
                    && final(self).archives_seq() == old(self).archives_seq().update(
                    i,
                    (id, archive),
                ),
            !old(self).spec_has(id@) ==> final(self).archives_seq()
                == old(self).archives_seq().push((id, archive)),
            forall|k: int|
                0 <= k < final(self).archives_seq().len()
                    && (#[trigger] final(self).archives_seq()[k]).0@ != id@
                    ==> old(self).archives_seq().contains(final(self).archives_seq()[k]),
    {
        let count = self.archives.len();
        for i in 0..count
            invariant
                count == self.archives_seq().len(),
                self.wf(),
                *self == *old(self),
                archive.wf(),
                forall|k: int| 0 <= k < i ==> (#[trigger] self.archives_seq()[k]).0@ != id@,
        {
            if str_eq(self.archives[i].0.as_str(), id.as_str()) {
                let _ = self.archives.remove(i);
                self.archives.insert(i, (id, archive));
                proof {
                    let s0 = old(self).archives_seq();
                    let s = self.archives_seq();
                    assert(s =~= s0.update(i as int, (id, archive)));
                    assert forall|a: int, b: int| 0 <= a < b < s.len() implies (
                    #[trigger] s[a]).0@ != (#[trigger] s[b]).0@ by {
                        assert(s0[a].0@ != s0[b].0@);
                    }
                    assert(s[i as int].0@ == id@);
                    assert(self.spec_has(id@));
                    let w2 = choose|w2: int| 0 <= w2 < s.len() && (#[trigger] s[w2]).0@ == id@;
                    assert(w2 == i as int);
                    assert(self.spec_get(id@) == archive);
                    assert forall|k: int| 0 <= k < s.len() implies (#[trigger] s[k]).1.wf() by {
                        if k != i as int {
                            assert(s[k] == s0[k]);
                            assert(s0[k].1.wf());
                        } else {
                            assert(s[k].1 == archive);
                        }
                    }
                    assert forall|k: int|
                        0 <= k < s.len() && (#[trigger] s[k]).0@ != id@ implies
                        s0.contains(s[k]) by {
                        assert(s[k] == s0[k]);
                    }
                }
                return ;
            }
        }
        self.archives.push((id, archive));
        proof {
            let s0 = old(self).archives_seq();
            let s = self.archives_seq();
            assert forall|a: int, b: int| 0 <= a < b < s.len() implies (#[trigger] s[a]).0@ != (
            #[trigger] s[b]).0@ by {
                if b < s.len() - 1 {
                    assert(s0[a].0@ != s0[b].0@);
                }
            }
            assert(s[s.len() - 1].0@ == id@);
            assert(self.spec_has(id@));
            let w = choose|w: int| 0 <= w < s.len() && (#[trigger] s[w]).0@ == id@;
            assert(w == s.len() - 1);
            assert(self.spec_get(id@) == archive);
            assert forall|k: int| 0 <= k < s.len() implies (#[trigger] s[k]).1.wf() by {
                if k < s.len() - 1 {
                    assert(s[k] == s0[k]);
                    assert(s0[k].1.wf());
                }
            }
            assert forall|k: int|
                0 <= k < s.len() && (#[trigger] s[k]).0@ != id@ implies s0.contains(s[k]) by {
                assert(s[k] == s0[k]);
            }
        }
    }

    /// Stores a brand-new archive under a freshly generated identifier and
    /// returns that identifier: the archive joins at the end and every
    /// earlier entry survives untouched. Fresh identifiers are random;
    /// should the drawn one already be present — which nothing rules out —
    /// the archive under it is replaced, as `insert_existing` does.
    pub fn insert_new(&mut self, archive: Archive) -> (r: String)
        requires
            old(self).wf(),
            archive.wf(),
        ensures
            final(self).wf(),
            final(self).path == old(self).path,
            final(self).version == old(self).version,
            r@.len() == 36,
            final(self).spec_has(r@),
            final(self).spec_get(r@) == archive,
            !old(self).spec_has(r@) ==> {
                &&& final(self).archives_seq().len() == old(self).archives_seq().len() + 1
                &&& final(self).archives_seq().last().0@ == r@
                &&& final(self).archives_seq().last().1 == archive
                &&& forall|k: int|
                    0 <= k < old(self).archives_seq().len() ==> final(self).archives_seq()[k]
                        == old(self).archives_seq()[k]
            },
            old(self).spec_has(r@) ==> exists|i: int|
                #![auto]
                {
                    &&& 0 <= i < old(self).archives_seq().len()
                    &&& old(self).archives_seq()[i].0@ == r@
                    &&& final(self).archives_seq().len() == old(self).archives_seq().len()
                    &&& final(self).archives_seq()[i].0@ == r@
                    &&& final(self).archives_seq()[i].1 == archive
                    &&& forall|k: int|
                        0 <= k < old(self).archives_seq().len() && k != i
                            ==> final(self).archives_seq()[k] == old(self).archives_seq()[k]
                },
    {
        let id = ids::generate_id();
        let r = id.clone();
        self.insert_existing(id, archive);
        r
    }

    /// Gets a reference to an archive by its identifier.
    pub fn get(&self, id: &str) -> (r: Option<&Archive>)
        requires
            self.wf(),
        ensures
            match r {
                None => !self.spec_has(id@),
                Some(a) => self.spec_has(id@) && *a == self.spec_get(id@),
            },
    {
        let count = self.archives.len();
        for i in 0..count
            invariant
                count == self.archives_seq().len(),
                self.wf(),
                forall|k: int| 0 <= k < i ==> (#[trigger] self.archives_seq()[k]).0@ != id@,
        {
            if str_eq(self.archives[i].0.as_str(), id) {
                return Some(&self.archives[i].1);
            }
        }
        None
    }

    /// Gets a mutable reference to an archive by its identifier. The
    /// manager stays well formed as long as the caller leaves the archive
    /// well formed.
    pub fn get_mut(&mut self, id: &str) -> (r: Option<&mut Archive>)
        requires
            old(self).wf(),
        ensures
            match r {
                None => *final(self) == *old(self) && !old(self).spec_has(id@),
                Some(m) => exists|i: int|
                    #![auto]
                    {
                        &&& 0 <= i < old(self).archives_seq().len()
                        &&& old(self).archives_seq()[i].0@ == id@
                        &&& *m == old(self).archives_seq()[i].1
                        &&& final(self).path == old(self).path
                        &&& final(self).version == old(self).version
                        &&& final(self).archives_seq() == old(self).archives_seq().update(
                            i,
                            (old(self).archives_seq()[i].0, *final(m)),
                        )
                    },
            },
    {
        let count = self.archives.len();
        for i in 0..count
            invariant
                count == self.archives_seq().len(),
                self.wf(),
                *self == *old(self),
                forall|k: int| 0 <= k < i ==> (#[trigger] self.archives_seq()[k]).0@ != id@,
        {
            if str_eq(self.archives[i].0.as_str(), id) {
                let m = &mut self.archives[i].1;
                return Some(m);
            }
        }
        None
    }

    /// Removes an archive by its identifier, returning it; its file on
    /// disk, if any, is left untouched.
    pub fn remove(&mut self, id: &str) -> (r: Option<Archive>)
        requires
            old(self).wf(),
        ensures
            final(self).wf(),
            final(self).path == old(self).path,
            final(self).version == old(self).version,
            match r {
                None => *final(self) == *old(self) && !old(self).spec_has(id@),
                Some(a) => {
                    &&& old(self).spec_has(id@)
                    &&& a == old(self).spec_get(id@)
                    &&& !final(self).spec_has(id@)
                    &&& exists|i: int|
                        #![auto]
                        0 <= i < old(self).archives_seq().len() && old(self).archives_seq()[i].0@
                            == id@ && final(self).archives_seq()
                            == old(self).archives_seq().remove(i)
                },
            },
    {
        let count = self.archives.len();
        for i in 0..count
            invariant
                count == self.archives_seq().len(),
                self.wf(),
                *self == *old(self),
                forall|k: int| 0 <= k < i ==> (#[trigger] self.archives_seq()[k]).0@ != id@,
        {
            if str_eq(self.archives[i].0.as_str(), id) {
                let (_, a) = self.archives.remove(i);
                proof {
                    let s0 = old(self).archives_seq();
                    let s = self.archives_seq();
                    assert(s == s0.remove(i as int));
                    assert forall|x: int, b: int| 0 <= x < b < s.len() implies (
                    #[trigger] s[x]).0@ != (#[trigger] s[b]).0@ by {
                        let aa = if x < i {
                            x
                        } else {
                            x + 1
                        };
                        let bb = if b < i {
                            b
                        } else {
                            b + 1
                        };
                        assert(s[x] == s0[aa] && s[b] == s0[bb]);
                        assert(s0[aa].0@ != s0[bb].0@);
                    }
                    assert forall|k: int| 0 <= k < s.len() implies (#[trigger] s[k]).1.wf() by {
                        let kk = if k < i {
                            k
                        } else {
                            k + 1
                        };
                        assert(s[k] == s0[kk]);
                        assert(s0[kk].1.wf());
                    }
                    let w = choose|w: int| 0 <= w < s0.len() && (#[trigger] s0[w]).0@ == id@;
                    assert(w == i as int);
                    assert(!self.spec_has(id@)) by {
                        if self.spec_has(id@) {
                            let k = choose|k: int| 0 <= k < s.len() && (#[trigger] s[k]).0@ == id@;
                            let kk = if k < i {
                                k
                            } else {
                                k + 1
                            };
                            assert(s0[kk].0@ == id@);
                        }
                    }
                }
                return Some(a);
            }
        }
        None
    }

    /// Checks that every archive the manager holds is at the compatibility
    /// version; fails on the first, in insertion order, that is not, with
    /// the version found there. Validation only: nothing is rewritten.
    pub fn ensure_compat(&self) -> (r: Result<(), Error>)
        ensures
            r == match spec_first_incompat(self.archives_seq()) {
                None => Result::<(), Error>::Ok(()),
                Some(v) => Result::<(), Error>::Err(Error::IncompatibleVersion(v)),
            },
    {
        let count = self.archives.len();
        for i in 0..count
            invariant
                count == self.archives_seq().len(),
                forall|k: int|
                    0 <= k < i ==> (#[trigger] self.archives_seq()[k]).1.version
                        == crate::VERSION_COMPAT,
        {
            if self.archives[i].1.version != crate::version_compat() {
                proof {
                    lemma_first_incompat_char(self.archives_seq(), i as int);
                }
                return Err(Error::IncompatibleVersion(self.archives[i].1.version));
            }
        }
        proof {
            lemma_first_incompat_char(self.archives_seq(), self.archives_seq().len() as int);
        }
        Ok(())
    }
}

} // verus!
