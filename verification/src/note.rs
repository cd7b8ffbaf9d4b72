//! User-written notes attached to a video, and their keyed collection.

use vstd::prelude::*;
use crate::numtext::spec_pad;
use crate::numtext::spec_dec_digits;
use crate::numtext::emit_pad;
use crate::numtext::emit_u32;
use crate::numtext::push_char;

verus! {

/// A note on one moment of a video: an identifier, a second offset into the
/// video, a title, and an optional description.
#[derive(Debug, Clone, PartialEq, Eq)]
pub struct Note {
    /// Unique queryable identifier of this note.
    pub id: String,
    /// Timestamp in seconds that this note refers to.
    pub timestamp: u32,
    /// Title the user gave the note.
    pub title: String,
    /// Optional plain-text description.
    pub description: Option<String>,
}

/// A number as at least two decimal digits: zero-padded below one hundred,
/// plain decimal above.
pub open spec fn spec_field02(n: int) -> Seq<char> {
    if n < 100 {
        spec_pad(n, 2, 10)
    } else {
        spec_dec_digits(n)
    }
}

/// The visual form of a second offset: `MM:SS` under an hour and a bit,
/// `HH:MM:SS` beyond it.
pub open spec fn spec_timestamp_str(ts: u32) -> Seq<char> {
    let mins = ts as int / 60;
    let secs = ts as int % 60;
    if mins > 60 {
        spec_field02(mins / 60) + seq![':'] + spec_pad(mins % 60, 2, 10) + seq![':'] + spec_pad(
            secs,
            2,
            10,
        )
    } else {
        spec_pad(mins, 2, 10) + seq![':'] + spec_pad(secs, 2, 10)
    }
}

fn emit_field02(out: &mut String, n: u32)
    ensures
        final(out)@ == old(out)@ + spec_field02(n as int),
{
    if n < 100 {
        emit_pad(out, n, 2, 10);
    } else {
        emit_u32(out, n);
    }
}

impl Note {
    /// The second offset as display text, minutes zero-padded, with an hour
    /// part only once the offset is over an hour.
    pub fn to_timestamp_str(&self) -> (r: String)
        ensures
            r@ == spec_timestamp_str(self.timestamp),
    {
        let mut mins = self.timestamp / 60;
        let secs = self.timestamp % 60;
        let mut out = String::new();
        if mins > 60 {
            let hours = mins / 60;
            mins = mins % 60;
            emit_field02(&mut out, hours);
            push_char(&mut out, ':');
            emit_pad(&mut out, mins, 2, 10);
            push_char(&mut out, ':');
            emit_pad(&mut out, secs, 2, 10);
            proof {
                assert(out@ =~= spec_timestamp_str(self.timestamp));
            }
        } else {
            emit_pad(&mut out, mins, 2, 10);
            push_char(&mut out, ':');
            emit_pad(&mut out, secs, 2, 10);
            proof {
                assert(out@ =~= spec_timestamp_str(self.timestamp));
            }
        }
        out
    }
}

/// Keyed collection of notes, indexed by each note's own identifier.
/// Iteration order is the order of first insertion; it is not promised.
#[derive(Debug, Clone, PartialEq, Eq)]
pub struct Notes {
    notes: Vec<Note>,
}

/// Identifiers are unique across the sequence of notes.
pub open spec fn notes_unique(s: Seq<Note>) -> bool {
    forall|i: int, j: int| 0 <= i < j < s.len() ==> (#[trigger] s[i]).id@ != (#[trigger] s[j]).id@
}

impl Notes {
    /// The notes, in insertion order.
    pub closed spec fn notes_seq(&self) -> Seq<Note> {
        self.notes@
    }

    pub open spec fn wf(&self) -> bool {
        notes_unique(self.notes_seq())
    }

    /// Some note carries the identifier `id`.
    pub open spec fn spec_has(&self, id: Seq<char>) -> bool {
        exists|i: int| 0 <= i < self.notes_seq().len() && (#[trigger] self.notes_seq()[i]).id@ == id
    }

    /// The note at `id`, where one is present.
    pub open spec fn spec_get(&self, id: Seq<char>) -> Note
        recommends
            self.spec_has(id),
    {
        self.notes_seq()[choose|i: int|
            0 <= i < self.notes_seq().len() && (#[trigger] self.notes_seq()[i]).id@ == id]
    }

    pub fn new() -> (r: Self)
        ensures
            r.notes_seq() == Seq::<Note>::empty(),
            r.wf(),
    {
        Notes { notes: Vec::new() }
    }

    pub fn len(&self) -> (r: usize)
        ensures
            r == self.notes_seq().len(),
    {
        self.notes.len()
    }

    /// The note at position `i`, in insertion order.
    pub fn note_at(&self, i: usize) -> (r: &Note)
        requires
            i < self.notes_seq().len(),
        ensures
            *r == self.notes_seq()[i as int],
    {
        &self.notes[i]
    }

    /// A reference to the note with the given identifier, if any.
    pub fn get(&self, id: &str) -> (r: Option<&Note>)
        requires
            self.wf(),
        ensures
            match r {
                None => !self.spec_has(id@),
                Some(n) => self.spec_has(id@) && *n == self.spec_get(id@),
            },
    {
        let count = self.notes.len();
        for i in 0..count
            invariant
                count == self.notes_seq().len(),
                self.wf(),
                forall|k: int| 0 <= k < i ==> (#[trigger] self.notes_seq()[k]).id@ != id@,
        {
            if crate::strutil::str_eq(self.notes[i].id.as_str(), id) {
                return Some(&self.notes[i]);
            }
        }
        None
    }

    /// A mutable reference to the note with the given identifier, if any.
    /// The collection stays well formed as long as the caller leaves the
    /// note's identifier unchanged.
    pub fn get_mut(&mut self, id: &str) -> (r: Option<&mut Note>)
        requires
            old(self).wf(),
        ensures
            match r {
                None => *final(self) == *old(self) && !old(self).spec_has(id@),
                Some(m) => exists|i: int|
                    #![auto]
                    {
                        &&& 0 <= i < old(self).notes_seq().len()
                        &&& old(self).notes_seq()[i].id@ == id@
                        &&& *m == old(self).notes_seq()[i]
                        &&& final(self).notes_seq() == old(self).notes_seq().update(
                            i,
                            *final(m),
                        )
                    },
            },
    {
        let count = self.notes.len();
        for i in 0..count
            invariant
                count == self.notes_seq().len(),
                self.wf(),
                *self == *old(self),
                forall|k: int| 0 <= k < i ==> (#[trigger] self.notes_seq()[k]).id@ != id@,
        {
            if crate::strutil::str_eq(self.notes[i].id.as_str(), id) {
                let m = &mut self.notes[i];
                return Some(m);
            }
        }
        None
    }

    /// Stores the note under its own identifier, replacing any note that
    /// already carried it.
    pub fn insert(&mut self, note: Note)
        requires
            old(self).wf(),
        ensures
            final(self).wf(),
            final(self).spec_has(note.id@),
            final(self).spec_get(note.id@) == note,
            old(self).spec_has(note.id@) ==> exists|i: int|
                #![auto]
                0 <= i < old(self).notes_seq().len() && old(self).notes_seq()[i].id@ == note.id@
                    && final(self).notes_seq() == old(self).notes_seq().update(i, note),
            !old(self).spec_has(note.id@) ==> final(self).notes_seq()
                == old(self).notes_seq().push(note),
            forall|k: int|
                0 <= k < final(self).notes_seq().len()
                    && (#[trigger] final(self).notes_seq()[k]).id@ != note.id@
                    ==> old(self).notes_seq().contains(final(self).notes_seq()[k]),
    {
        let count = self.notes.len();
        for i in 0..count
            invariant
                count == self.notes_seq().len(),
                self.wf(),
                *self == *old(self),
                forall|k: int| 0 <= k < i ==> (#[trigger] self.notes_seq()[k]).id@ != note.id@,
        {
            if crate::strutil::str_eq(self.notes[i].id.as_str(), note.id.as_str()) {
                self.notes.set(i, note);
                proof {
                    let s = self.notes_seq();
                    assert forall|a: int, b: int| 0 <= a < b < s.len() implies (
                    #[trigger] s[a]).id@ != (#[trigger] s[b]).id@ by {
                        assert(old(self).notes_seq()[a].id@ != old(self).notes_seq()[b].id@);
                    }
                    assert(s[i as int].id@ == note.id@);
                    let w = choose|w: int| 0 <= w < s.len() && (#[trigger] s[w]).id@ == note.id@;
                    assert(w == i as int);
                    assert forall|k: int|
                        0 <= k < s.len() && (#[trigger] s[k]).id@ != note.id@ implies old(
                        self,
                    ).notes_seq().contains(s[k]) by {
                        assert(s[k] == old(self).notes_seq()[k]);
                    }
                }
                return ;
            }
        }
        self.notes.push(note);
        proof {
            let s = self.notes_seq();
            assert forall|a: int, b: int| 0 <= a < b < s.len() implies (#[trigger] s[a]).id@ != (
            #[trigger] s[b]).id@ by {
                if b < s.len() - 1 {
                    assert(old(self).notes_seq()[a].id@ != old(self).notes_seq()[b].id@);
                }
            }
            assert(s[s.len() - 1].id@ == note.id@);
            let w = choose|w: int| 0 <= w < s.len() && (#[trigger] s[w]).id@ == note.id@;
            assert(w == s.len() - 1);
            assert forall|k: int|
                0 <= k < s.len() && (#[trigger] s[k]).id@ != note.id@ implies old(
                self,
            ).notes_seq().contains(s[k]) by {
                assert(s[k] == old(self).notes_seq()[k]);
            }
        }
    }

    /// Removes and returns the note at `id`, or nothing if it is absent.
    pub fn remove(&mut self, id: &str) -> (r: Option<Note>)
        requires
            old(self).wf(),
        ensures
            final(self).wf(),
            match r {
                None => *final(self) == *old(self) && !old(self).spec_has(id@),
                Some(n) => {
                    &&& old(self).spec_has(id@)
                    &&& n == old(self).spec_get(id@)
                    &&& !final(self).spec_has(id@)
                    &&& exists|i: int|
                        #![auto]
                        0 <= i < old(self).notes_seq().len() && old(self).notes_seq()[i].id@
                            == id@ && final(self).notes_seq() == old(self).notes_seq().remove(i)
                },
            },
    {
        let count = self.notes.len();
        for i in 0..count
            invariant
                count == self.notes_seq().len(),
                self.wf(),
                *self == *old(self),
                forall|k: int| 0 <= k < i ==> (#[trigger] self.notes_seq()[k]).id@ != id@,
        {
            if crate::strutil::str_eq(self.notes[i].id.as_str(), id) {
                let n = self.notes.remove(i);
                proof {
                    let s0 = old(self).notes_seq();
                    let s = self.notes_seq();
                    assert(s == s0.remove(i as int));
                    assert forall|a: int, b: int| 0 <= a < b < s.len() implies (
                    #[trigger] s[a]).id@ != (#[trigger] s[b]).id@ by {
                        let aa = if a < i { a } else { a + 1 };
                        let bb = if b < i { b } else { b + 1 };
                        assert(s[a] == s0[aa] && s[b] == s0[bb]);
                        assert(s0[aa].id@ != s0[bb].id@);
                    }
                    let w = choose|w: int| 0 <= w < s0.len() && (#[trigger] s0[w]).id@ == id@;
                    assert(w == i as int);
                    assert(!self.spec_has(id@)) by {
                        if self.spec_has(id@) {
                            let k = choose|k: int|
                                0 <= k < s.len() && (#[trigger] s[k]).id@ == id@;
                            let kk = if k < i { k } else { k + 1 };
                            assert(s0[kk].id@ == id@);
                        }
                    }
                }
                return Some(n);
            }
        }
        None
    }
}

impl Default for Notes {
    /// The empty collection.
    fn default() -> (r: Self)
        ensures
            r.notes_seq() == Seq::<Note>::empty(),
            r.wf(),
    {
        Notes::new()
    }
}

} // verus!
