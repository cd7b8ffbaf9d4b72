//! Thumbnail history: a value series specialised to content-hash text.
//!
//! A hash names a thumbnail file under the archive directory; the owning
//! archive resolves it to a path.

use vstd::prelude::*;
use crate::date::YarkDate;
use crate::elements::Elements;
use crate::elements::entries_sorted;
use crate::elements::spec_insert_entry;

verus! {

/// Content-hash text used to locate a thumbnail file on disk.
pub type ImageHash = String;

/// Series of thumbnail hashes over time.
#[derive(Debug, Clone, PartialEq, Eq)]
pub struct Images {
    series: Elements<ImageHash>,
}

impl Images {
    /// The hash entries, oldest first.
    pub closed spec fn entries_seq(&self) -> Seq<(YarkDate, ImageHash)> {
        self.series.entries_seq()
    }

    pub open spec fn wf(&self) -> bool {
        &&& entries_sorted(self.entries_seq())
        &&& forall|i: int|
            0 <= i < self.entries_seq().len() ==> (#[trigger] self.entries_seq()[i]).0.wf()
    }

    pub open spec fn spec_current(&self) -> Option<ImageHash> {
        if self.entries_seq().len() == 0 {
            None
        } else {
            Some(self.entries_seq().last().1)
        }
    }

    pub fn new() -> (r: Self)
        ensures
            r.entries_seq() == Seq::<(YarkDate, ImageHash)>::empty(),
            r.wf(),
    {
        Images { series: Elements::new() }
    }

    /// A tracker with one hash at a caller-supplied date.
    pub fn new_existing(dt: YarkDate, hash: ImageHash) -> (r: Self)
        requires
            dt.wf(),
        ensures
            r.entries_seq() == seq![(dt, hash)],
            r.wf(),
    {
        Images { series: Elements::new_existing(dt, hash) }
    }

    /// A tracker whose first hash was found out about just now.
    pub fn new_now(hash: ImageHash) -> (r: Self)
        ensures
            r.wf(),
            r.entries_seq().len() == 1,
            r.entries_seq()[0].1 == hash,
    {
        Images { series: Elements::new_now(hash) }
    }

    /// Adds a hash found out about just now.
    pub fn insert_now(&mut self, hash: ImageHash)
        requires
            old(self).wf(),
        ensures
            final(self).wf(),
            exists|d: YarkDate|
                #![auto]
                d.wf() && final(self).entries_seq() == spec_insert_entry(
                    old(self).entries_seq(),
                    d,
                    hash,
                ),
    {
        self.series.insert_now(hash);
    }

    /// Adds or overwrites the hash at `dt`.
    pub fn insert(&mut self, dt: YarkDate, hash: ImageHash)
        requires
            old(self).wf(),
            dt.wf(),
        ensures
            final(self).wf(),
            final(self).entries_seq() == spec_insert_entry(old(self).entries_seq(), dt, hash),
    {
        self.series.insert(dt, hash);
    }

    /// The most recent hash, or nothing while the tracker is empty.
    pub fn current(&self) -> (r: Option<&ImageHash>)
        ensures
            match r {
                None => self.entries_seq().len() == 0,
                Some(v) => self.spec_current() == Some(*v),
            },
            r is Some <==> self.entries_seq().len() > 0,
    {
        self.series.current()
    }

    /// The entry at position `i`, oldest first.
    pub fn entry_at(&self, i: usize) -> (r: &(YarkDate, ImageHash))
        requires
            i < self.entries_seq().len(),
        ensures
            *r == self.entries_seq()[i as int],
    {
        self.series.entry_at(i)
    }

    pub fn len(&self) -> (r: usize)
        ensures
            r == self.entries_seq().len(),
    {
        self.series.len()
    }

    /// Wraps an existing hash series.
    pub fn from_series(series: Elements<ImageHash>) -> (r: Images)
        ensures
            r.entries_seq() == series.entries_seq(),
    {
        Images { series }
    }

    /// The underlying hash series.
    pub fn as_series(&self) -> (r: &Elements<ImageHash>)
        ensures
            r.entries_seq() == self.entries_seq(),
    {
        &self.series
    }
}

impl Default for Images {
    /// The empty tracker.
    fn default() -> (r: Self)
        ensures
            r.entries_seq() == Seq::<(YarkDate, ImageHash)>::empty(),
            r.wf(),
    {
        Images::new()
    }
}

} // verus!
