//! Timestamp-keyed value series: the append-only history of one field.

use vstd::prelude::*;
use crate::date::YarkDate;
use crate::date::lemma_date_lt_trans;
use crate::date::lemma_date_lt_total;

verus! {

/// Ordered mapping from [`YarkDate`] to a value: every value this field has
/// had, and when it was first known. Entries are kept sorted by date and
/// dates are unique; inserting at a present date replaces that entry.
#[derive(Debug, Clone, PartialEq, Eq)]
pub struct Elements<T> {
    entries: Vec<(YarkDate, T)>,
}

/// Keys strictly increase along the sequence of entries.
pub open spec fn entries_sorted<T>(s: Seq<(YarkDate, T)>) -> bool {
    forall|i: int, j: int|
        0 <= i < j < s.len() ==> (#[trigger] s[i]).0.spec_lt(#[trigger] s[j].0)
}

/// Some entry of `s` carries the date `d`.
pub open spec fn entries_has_key<T>(s: Seq<(YarkDate, T)>, d: YarkDate) -> bool {
    exists|i: int| 0 <= i < s.len() && (#[trigger] s[i]).0 == d
}

/// What inserting `(d, v)` leaves of a sorted entry sequence: the entry at
/// `d` is replaced if present, otherwise `(d, v)` joins at its sorted place.
pub open spec fn spec_insert_entry<T>(s: Seq<(YarkDate, T)>, d: YarkDate, v: T) -> Seq<
    (YarkDate, T),
>
    decreases s.len(),
{
    if s.len() == 0 {
        seq![(d, v)]
    } else if s.last().0.spec_lt(d) {
        s.push((d, v))
    } else if d.spec_lt(s.last().0) {
        spec_insert_entry(s.drop_last(), d, v).push(s.last())
    } else {
        s.drop_last().push((d, v))
    }
}

/// Inserting at a date later than every key appends at the end.
pub proof fn lemma_insert_entry_append<T>(s: Seq<(YarkDate, T)>, d: YarkDate, v: T)
    requires
        forall|i: int| 0 <= i < s.len() ==> (#[trigger] s[i]).0.spec_lt(d),
    ensures
        spec_insert_entry(s, d, v) == s.push((d, v)),
{
    if s.len() > 0 {
        assert(s[s.len() - 1].0.spec_lt(d));
    }
}

/// Where the new entry lands: with `i` the count of keys before `d`, the
/// result is an update in place on a key match and a sorted insertion else.
pub proof fn lemma_insert_entry_char<T>(s: Seq<(YarkDate, T)>, d: YarkDate, v: T, i: int)
    requires
        entries_sorted(s),
        0 <= i <= s.len(),
        forall|k: int| 0 <= k < i ==> (#[trigger] s[k]).0.spec_lt(d),
        forall|k: int| i <= k < s.len() ==> !(#[trigger] s[k]).0.spec_lt(d),
    ensures
        i < s.len() && s[i].0 == d ==> spec_insert_entry(s, d, v) == s.update(i, (d, v)),
        !(i < s.len() && s[i].0 == d) ==> spec_insert_entry(s, d, v) == s.insert(i, (d, v)),
    decreases s.len(),
{
    if s.len() == 0 {
        assert(spec_insert_entry(s, d, v) =~= s.insert(0, (d, v)));
    } else {
        let n = s.len() as int;
        let last = s[n - 1];
        if i == n {
            assert(last.0.spec_lt(d));
            assert(spec_insert_entry(s, d, v) =~= s.insert(n, (d, v)));
        } else {
            assert(!last.0.spec_lt(d));
            if last.0 == d {
                // the matching key can only sit at the last position
                if i < n - 1 {
                    assert(s[i].0.spec_lt(s[n - 1].0) || s[i].0 == s[n - 1].0);
                    assert(false);
                }
                assert(i == n - 1);
                assert(spec_insert_entry(s, d, v) == s.drop_last().push((d, v)));
                assert(spec_insert_entry(s, d, v) =~= s.update(i, (d, v)));
            } else {
                lemma_date_lt_total(last.0, d);
                assert(d.spec_lt(last.0));
                let t = s.drop_last();
                assert(entries_sorted(t));
                assert(forall|k: int| 0 <= k < i ==> (#[trigger] t[k]).0.spec_lt(d));
                assert(i <= t.len()) by {
                    if i == n {
                        assert(false);
                    }
                }
                assert(forall|k: int| i <= k < t.len() ==> !(#[trigger] t[k]).0.spec_lt(d));
                lemma_insert_entry_char(t, d, v, i);
                if i < t.len() && t[i].0 == d {
                    assert(s[i].0 == d);
                    assert(spec_insert_entry(s, d, v) == t.update(i, (d, v)).push(last));
                    assert(spec_insert_entry(s, d, v) =~= s.update(i, (d, v)));
                } else {
                    assert(!(i < s.len() && s[i].0 == d)) by {
                        if i < t.len() {
                        } else {
                            assert(i == n - 1);
                            assert(s[i] == last);
                        }
                    }
                    assert(spec_insert_entry(s, d, v) == t.insert(i, (d, v)).push(last));
                    assert(spec_insert_entry(s, d, v) =~= s.insert(i, (d, v)));
                }
            }
        }
    }
}

/// The insertion keeps the entries sorted, keeps every other key's value,
/// and holds `v` at `d`; the length grows only when `d` was absent.
pub proof fn lemma_insert_entry_props<T>(s: Seq<(YarkDate, T)>, d: YarkDate, v: T)
    requires
        entries_sorted(s),
    ensures
        entries_sorted(spec_insert_entry(s, d, v)),
        entries_has_key(spec_insert_entry(s, d, v), d),
        entries_has_key(s, d) ==> spec_insert_entry(s, d, v).len() == s.len(),
        !entries_has_key(s, d) ==> spec_insert_entry(s, d, v).len() == s.len() + 1,
        forall|i: int|
            0 <= i < spec_insert_entry(s, d, v).len() && (#[trigger] spec_insert_entry(
                s,
                d,
                v,
            )[i]).0 == d ==> spec_insert_entry(s, d, v)[i].1 == v,
        forall|i: int|
            0 <= i < spec_insert_entry(s, d, v).len() && (#[trigger] spec_insert_entry(
                s,
                d,
                v,
            )[i]).0 != d ==> s.contains(spec_insert_entry(s, d, v)[i]),
{
    let i = count_lt(s, d);
    count_lt_props(s, d);
    let r = spec_insert_entry(s, d, v);
    lemma_insert_entry_char(s, d, v, i);
    if i < s.len() && s[i].0 == d {
        assert(r == s.update(i, (d, v)));
        assert(entries_has_key(s, d));
        assert(r[i].0 == d);
        assert forall|a: int, b: int| 0 <= a < b < r.len() implies (#[trigger] r[a]).0.spec_lt(
            (#[trigger] r[b]).0,
        ) by {
            assert(s[a].0.spec_lt(s[b].0));
        }
        assert forall|k: int| 0 <= k < r.len() && (#[trigger] r[k]).0 == d implies r[k].1 == v by {
            if k != i {
                assert(s[k].0 == d && s[i].0 == d);
                assert(s[k].0.spec_lt(s[i].0) || s[i].0.spec_lt(s[k].0));
            }
        }
        assert forall|k: int| 0 <= k < r.len() && (#[trigger] r[k]).0 != d implies s.contains(
            r[k],
        ) by {
            assert(r[k] == s[k]);
        }
    } else {
        assert(r == s.insert(i, (d, v)));
        assert(!entries_has_key(s, d)) by {
            if entries_has_key(s, d) {
                let k = choose|k: int| 0 <= k < s.len() && (#[trigger] s[k]).0 == d;
                if k < i {
                    assert(s[k].0.spec_lt(d));
                } else {
                    assert(!s[k].0.spec_lt(d));
                    lemma_date_lt_total(s[k].0, d);
                }
            }
        }
        assert(r[i].0 == d);
        assert forall|a: int, b: int| 0 <= a < b < r.len() implies (#[trigger] r[a]).0.spec_lt(
            (#[trigger] r[b]).0,
        ) by {
            let sa = if a < i { s[a] } else { s[a - 1] };
            let sb = if b < i { s[b] } else { s[b - 1] };
            if a == i {
                // r[a] == (d, v); every entry from position i on exceeds d
                assert(!s[b - 1].0.spec_lt(d));
                lemma_date_lt_total(s[b - 1].0, d);
                assert(s[b - 1].0 != d);
            } else if b == i {
                assert(s[a].0.spec_lt(d));
            } else {
                assert(r[a] == sa && r[b] == sb);
                if a < i && b > i {
                    assert(sa.0.spec_lt(d));
                    assert(!sb.0.spec_lt(d));
                    lemma_date_lt_total(sb.0, d);
                    if sb.0 == d {
                        assert(false);
                    }
                    lemma_date_lt_trans(sa.0, d, sb.0);
                }
            }
        }
        assert forall|k: int| 0 <= k < r.len() && (#[trigger] r[k]).0 == d implies r[k].1 == v by {
            if k != i {
                let sk = if k < i { s[k] } else { s[k - 1] };
                assert(r[k] == sk);
                if k < i {
                    assert(s[k].0.spec_lt(d));
                } else {
                    assert(!s[k - 1].0.spec_lt(d));
                    lemma_date_lt_total(s[k - 1].0, d);
                }
            }
        }
        assert forall|k: int| 0 <= k < r.len() && (#[trigger] r[k]).0 != d implies s.contains(
            r[k],
        ) by {
            if k < i {
                assert(r[k] == s[k]);
            } else {
                assert(k != i);
                assert(r[k] == s[k - 1]);
            }
        }
    }
}

/// How many keys of `s` lie strictly before `d`; on a sorted sequence this
/// is the length of the prefix of earlier keys.
pub open spec fn count_lt<T>(s: Seq<(YarkDate, T)>, d: YarkDate) -> int
    decreases s.len(),
{
    if s.len() == 0 {
        0
    } else if s[0].0.spec_lt(d) {
        1 + count_lt(s.drop_first(), d)
    } else {
        0
    }
}

pub proof fn count_lt_props<T>(s: Seq<(YarkDate, T)>, d: YarkDate)
    requires
        entries_sorted(s),
    ensures
        0 <= count_lt(s, d) <= s.len(),
        forall|k: int| 0 <= k < count_lt(s, d) ==> (#[trigger] s[k]).0.spec_lt(d),
        forall|k: int| count_lt(s, d) <= k < s.len() ==> !(#[trigger] s[k]).0.spec_lt(d),
    decreases s.len(),
{
    if s.len() > 0 {
        let t = s.drop_first();
        assert(entries_sorted(t));
        count_lt_props(t, d);
        if s[0].0.spec_lt(d) {
            let c = count_lt(s, d);
            assert forall|k: int| 0 <= k < c implies (#[trigger] s[k]).0.spec_lt(d) by {
                if k > 0 {
                    assert(t[k - 1].0.spec_lt(d));
                }
            }
            assert forall|k: int| c <= k < s.len() implies !(#[trigger] s[k]).0.spec_lt(d) by {
                assert(s[k] == t[k - 1]);
            }
        } else {
            assert forall|k: int| 0 <= k < s.len() implies !(#[trigger] s[k]).0.spec_lt(d) by {
                if k > 0 {
                    if s[k].0.spec_lt(d) {
                        assert(s[0].0.spec_lt(s[k].0));
                        lemma_date_lt_trans(s[0].0, s[k].0, d);
                    }
                }
            }
        }
    }
}

impl<T> Elements<T> {
    /// The entries, oldest first.
    pub closed spec fn entries_seq(&self) -> Seq<(YarkDate, T)> {
        self.entries@
    }

    /// Sorted unique keys, every key a real timestamp.
    pub open spec fn wf(&self) -> bool {
        &&& entries_sorted(self.entries_seq())
        &&& forall|i: int|
            0 <= i < self.entries_seq().len() ==> (#[trigger] self.entries_seq()[i]).0.wf()
    }

    /// The value the series currently holds: the one at the latest date.
    pub open spec fn spec_current(&self) -> Option<T> {
        if self.entries_seq().len() == 0 {
            None
        } else {
            Some(self.entries_seq().last().1)
        }
    }

    /// The empty series.
    pub fn new() -> (r: Self)
        ensures
            r.entries_seq() == Seq::<(YarkDate, T)>::empty(),
            r.wf(),
    {
        Elements { entries: Vec::new() }
    }

    /// A series with one entry at a caller-supplied date, as when history
    /// is reconstructed from an outside record.
    pub fn new_existing(dt: YarkDate, value: T) -> (r: Self)
        requires
            dt.wf(),
        ensures
            r.entries_seq() == seq![(dt, value)],
            r.wf(),
    {
        let mut entries: Vec<(YarkDate, T)> = Vec::new();
        entries.push((dt, value));
        Elements { entries }
    }

    /// A series whose sole entry is dated at the present moment.
    pub fn new_now(value: T) -> (r: Self)
        ensures
            r.wf(),
            r.entries_seq().len() == 1,
            r.entries_seq()[0].1 == value,
    {
        let dt = YarkDate::now();
        Self::new_existing(dt, value)
    }

    pub fn len(&self) -> (r: usize)
        ensures
            r == self.entries_seq().len(),
    {
        self.entries.len()
    }

    pub fn is_empty(&self) -> (r: bool)
        ensures
            r == (self.entries_seq().len() == 0),
    {
        self.entries.len() == 0
    }

    /// The entry at position `i`, oldest first.
    pub fn entry_at(&self, i: usize) -> (r: &(YarkDate, T))
        requires
            i < self.entries_seq().len(),
        ensures
            *r == self.entries_seq()[i as int],
    {
        &self.entries[i]
    }

    /// Adds or overwrites the entry at `dt`: the history never loses a
    /// dated value, it is only superseded or restated.
    pub fn insert(&mut self, dt: YarkDate, value: T)
        requires
            old(self).wf(),
            dt.wf(),
        ensures
            final(self).wf(),
            final(self).entries_seq() == spec_insert_entry(old(self).entries_seq(), dt, value),
    {
        let ghost s0 = self.entries@;
        let n = self.entries.len();
        let mut i: usize = n;
        while i > 0 && !self.entries[i - 1].0.lt(&dt)
            invariant
                i <= n,
                n == self.entries.len(),
                self.entries@ == s0,
                entries_sorted(s0),
                forall|k: int| i <= k < n ==> !(#[trigger] s0[k]).0.spec_lt(dt),
            decreases i,
        {
            i = i - 1;
        }
        proof {
            assert forall|k: int| 0 <= k < i implies (#[trigger] s0[k]).0.spec_lt(dt) by {
                if k < i - 1 {
                    assert(s0[k].0.spec_lt(s0[i - 1].0));
                    lemma_date_lt_trans(s0[k].0, s0[i - 1].0, dt);
                }
            }
            lemma_insert_entry_char(s0, dt, value, i as int);
            lemma_insert_entry_props(s0, dt, value);
        }
        if i < n && self.entries[i].0 == dt {
            self.entries.set(i, (dt, value));
            proof {
                assert(self.entries@ =~= spec_insert_entry(s0, dt, value));
            }
        } else {
            self.entries.insert(i, (dt, value));
            proof {
                assert(self.entries@ =~= spec_insert_entry(s0, dt, value));
            }
        }
        proof {
            let r = spec_insert_entry(s0, dt, value);
            assert forall|k: int| 0 <= k < r.len() implies (#[trigger] r[k]).0.wf() by {
                if r[k].0 != dt {
                    assert(s0.contains(r[k]));
                    let j = choose|j: int| 0 <= j < s0.len() && s0[j] == r[k];
                    assert(s0[j].0.wf());
                }
            }
        }
    }

    /// Adds a value found out about just now.
    pub fn insert_now(&mut self, value: T)
        requires
            old(self).wf(),
        ensures
            final(self).wf(),
            exists|d: YarkDate|
                #![auto]
                d.wf() && final(self).entries_seq() == spec_insert_entry(
                    old(self).entries_seq(),
                    d,
                    value,
                ),
    {
        let dt = YarkDate::now();
        self.insert(dt, value);
    }

    /// The most recent value in the series, or nothing while it is empty.
    pub fn current(&self) -> (r: Option<&T>)
        ensures
            match r {
                None => self.entries_seq().len() == 0,
                Some(v) => self.spec_current() == Some(*v),
            },
            r is Some <==> self.entries_seq().len() > 0,
    {
        let n = self.entries.len();
        if n == 0 {
            None
        } else {
            Some(&self.entries[n - 1].1)
        }
    }
}

impl<T> Default for Elements<T> {
    /// The empty series.
    fn default() -> (r: Self)
        ensures
            r.entries_seq() == Seq::<(YarkDate, T)>::empty(),
            r.wf(),
    {
        Elements::new()
    }
}

/// A value dated after every other key is the series' current value,
/// however the entries came to be inserted: only the dates decide.
pub proof fn lemma_current_of_max<T>(e: Elements<T>, t: YarkDate, v: T)
    requires
        e.wf(),
        exists|i: int|
            0 <= i < e.entries_seq().len() && #[trigger] e.entries_seq()[i] == (t, v),
        forall|k: int|
            0 <= k < e.entries_seq().len() && (#[trigger] e.entries_seq()[k]).0 != t ==> e.entries_seq()[k].0.spec_lt(t),
    ensures
        e.spec_current() == Some(v),
{
    let s = e.entries_seq();
    let i = choose|i: int| 0 <= i < s.len() && #[trigger] s[i] == (t, v);
    let last = s.len() - 1;
    assert(s[last].0 == t) by {
        if s[last].0 != t {
            assert(s[last].0.spec_lt(t));
            if i < last {
                assert(s[i].0.spec_lt(s[last].0));
                lemma_date_lt_trans(s[i].0, s[last].0, t);
            }
        }
    }
    assert(i == last) by {
        if i < last {
            assert(s[i].0.spec_lt(s[last].0));
        }
    }
}

/// The current value is the one at the chronologically greatest key: every
/// other entry's date lies strictly before it. With [`lemma_insert_entry_props`]
/// this pins `current` after any run of inserts, in whatever order they came.
pub proof fn lemma_current_is_latest<T>(e: Elements<T>)
    requires
        e.wf(),
        e.entries_seq().len() > 0,
    ensures
        e.spec_current() == Some(e.entries_seq().last().1),
        forall|i: int|
            0 <= i < e.entries_seq().len() - 1 ==> (#[trigger] e.entries_seq()[i]).0.spec_lt(
                e.entries_seq().last().0,
            ),
{
}

} // verus!
