//! A tracked video and the keyed collection of videos, with pagination by
//! recency.

use vstd::prelude::*;
use crate::date::YarkDate;
use crate::elements::Elements;
use crate::images::Images;
use crate::note::Notes;
use crate::strutil::str_lt;
use crate::strutil::str_lt_exec;
use crate::strutil::str_eq;
use crate::strutil::lemma_str_lt_irrefl;
use crate::strutil::lemma_str_lt_total;
use crate::strutil::lemma_str_lt_trans;
use crate::date::lemma_date_lt_total;
use crate::date::lemma_date_lt_trans;

verus! {

/// One tracked item — video, livestream or short — with the whole known
/// history of each of its mutable fields.
#[derive(Debug, Clone, PartialEq, Eq)]
pub struct Video {
    /// Provider-assigned identifier; the collection key. Never changed
    /// after construction.
    pub id: String,
    /// When the video was uploaded: one point in time, not a series.
    pub uploaded: YarkDate,
    /// Width hint in pixels of a potential download; kept for the on-disk
    /// form though no longer meaningful.
    pub width: u32,
    /// Height hint in pixels; kept like `width`.
    pub height: u32,
    /// Every title the video has had.
    pub title: Elements<String>,
    /// Every description the video has had.
    pub description: Elements<String>,
    /// Every view count observed; a video may hide its count.
    pub views: Elements<Option<u32>>,
    /// Every like count observed; a video may hide its count.
    pub likes: Elements<Option<u32>>,
    /// Every thumbnail hash observed.
    pub thumbnail: Images,
    /// Whether the video was found removed from public view, over time.
    pub deleted: Elements<bool>,
    /// User-written notes on this video.
    pub notes: Notes,
}

impl Video {
    pub open spec fn wf(&self) -> bool {
        &&& self.uploaded.wf()
        &&& self.title.wf()
        &&& self.description.wf()
        &&& self.views.wf()
        &&& self.likes.wf()
        &&& self.thumbnail.wf()
        &&& self.deleted.wf()
        &&& self.notes.wf()
    }

    /// A new video whose every series is seeded with the given value at the
    /// present moment, `deleted` seeded to `false`, and no notes.
    pub fn new(
        id: String,
        uploaded: YarkDate,
        width: u32,
        height: u32,
        title: String,
        description: String,
        views: Option<u32>,
        likes: Option<u32>,
        thumbnail: String,
    ) -> (r: Video)
        requires
            uploaded.wf(),
        ensures
            r.wf(),
            r.id == id,
            r.uploaded == uploaded,
            r.width == width,
            r.height == height,
            r.title.entries_seq().len() == 1 && r.title.entries_seq()[0].1 == title,
            r.description.entries_seq().len() == 1 && r.description.entries_seq()[0].1
                == description,
            r.views.entries_seq().len() == 1 && r.views.entries_seq()[0].1 == views,
            r.likes.entries_seq().len() == 1 && r.likes.entries_seq()[0].1 == likes,
            r.thumbnail.entries_seq().len() == 1 && r.thumbnail.entries_seq()[0].1 == thumbnail,
            r.deleted.entries_seq().len() == 1 && r.deleted.entries_seq()[0].1 == false,
            r.notes.notes_seq().len() == 0,
            exists|d: YarkDate|
                #![auto]
                {
                    &&& d.wf()
                    &&& r.title.entries_seq()[0].0 == d
                    &&& r.description.entries_seq()[0].0 == d
                    &&& r.views.entries_seq()[0].0 == d
                    &&& r.likes.entries_seq()[0].0 == d
                    &&& r.thumbnail.entries_seq()[0].0 == d
                    &&& r.deleted.entries_seq()[0].0 == d
                },
    {
        let found = YarkDate::now();
        Video {
            id,
            uploaded,
            width,
            height,
            title: Elements::new_existing(found, title),
            description: Elements::new_existing(found, description),
            views: Elements::new_existing(found, views),
            likes: Elements::new_existing(found, likes),
            thumbnail: Images::new_existing(found, thumbnail),
            deleted: Elements::new_existing(found, false),
            notes: Notes::new(),
        }
    }
}

/// Ranking for pagination: newer uploads first, and the provider identifier
/// (ascending) as the deterministic tie-break for equal upload dates.
pub open spec fn ranks_before(a: Video, b: Video) -> bool {
    b.uploaded.spec_lt(a.uploaded) || (a.uploaded == b.uploaded && str_lt(a.id@, b.id@))
}

/// Where `v` lands when ranked into `s`: before the first entry it
/// outranks, after everything else.
pub open spec fn spec_insert_ranked(s: Seq<Video>, v: Video) -> Seq<Video>
    decreases s.len(),
{
    if s.len() == 0 {
        seq![v]
    } else if ranks_before(v, s[0]) {
        seq![v] + s
    } else {
        seq![s[0]] + spec_insert_ranked(s.drop_first(), v)
    }
}

/// The videos ranked newest first, built by ranking each entry in turn.
pub open spec fn spec_sort_videos(s: Seq<Video>) -> Seq<Video>
    decreases s.len(),
{
    if s.len() == 0 {
        Seq::empty()
    } else {
        spec_insert_ranked(spec_sort_videos(s.drop_last()), s.last())
    }
}

/// Identifiers are unique across a sequence of videos.
pub open spec fn videos_unique(s: Seq<Video>) -> bool {
    forall|i: int, j: int| 0 <= i < j < s.len() ==> (#[trigger] s[i]).id@ != (#[trigger] s[j]).id@
}

/// Every entry is well formed.
pub open spec fn videos_wf(s: Seq<Video>) -> bool {
    forall|i: int| 0 <= i < s.len() ==> (#[trigger] s[i]).wf()
}

/// Strictly ranked: each entry outranks all later ones.
pub open spec fn videos_ranked(s: Seq<Video>) -> bool {
    forall|i: int, j: int| 0 <= i < j < s.len() ==> ranks_before(#[trigger] s[i], #[trigger] s[j])
}

/// The ranking is total over videos with distinct identifiers.
pub proof fn lemma_ranks_total(a: Video, b: Video)
    requires
        a.id@ != b.id@,
    ensures
        ranks_before(a, b) || ranks_before(b, a),
{
    lemma_date_lt_total(a.uploaded, b.uploaded);
    if a.uploaded == b.uploaded {
        lemma_str_lt_total(a.id@, b.id@);
    }
}

/// The ranking is transitive.
pub proof fn lemma_ranks_trans(a: Video, b: Video, c: Video)
    requires
        ranks_before(a, b),
        ranks_before(b, c),
    ensures
        ranks_before(a, c),
{
    if b.uploaded.spec_lt(a.uploaded) && c.uploaded.spec_lt(b.uploaded) {
        lemma_date_lt_trans(c.uploaded, b.uploaded, a.uploaded);
    } else if a.uploaded == b.uploaded && b.uploaded == c.uploaded {
        lemma_str_lt_trans(a.id@, b.id@, c.id@);
    }
}

/// Nothing outranks itself.
pub proof fn lemma_ranks_irrefl(a: Video)
    ensures
        !ranks_before(a, a),
{
    lemma_str_lt_irrefl(a.id@);
}

/// Ranked insertion at the position counted out by the prefix of entries
/// not outranked by `v`.
pub proof fn lemma_insert_ranked_char(s: Seq<Video>, v: Video, i: int)
    requires
        0 <= i <= s.len(),
        forall|k: int| 0 <= k < i ==> !ranks_before(v, #[trigger] s[k]),
        i < s.len() ==> ranks_before(v, s[i]),
    ensures
        spec_insert_ranked(s, v) == s.insert(i, v),
    decreases s.len(),
{
    if s.len() == 0 {
        assert(spec_insert_ranked(s, v) =~= s.insert(0, v));
    } else if ranks_before(v, s[0]) {
        assert(i == 0);
        assert(spec_insert_ranked(s, v) =~= s.insert(0, v));
    } else {
        assert(i >= 1);
        let t = s.drop_first();
        assert(forall|k: int| 0 <= k < i - 1 ==> !ranks_before(v, #[trigger] t[k]));
        assert(i - 1 < t.len() ==> ranks_before(v, t[i - 1]));
        lemma_insert_ranked_char(t, v, i - 1);
        assert(spec_insert_ranked(s, v) == seq![s[0]] + t.insert(i - 1, v));
        assert(spec_insert_ranked(s, v) =~= s.insert(i, v));
    }
}

/// Ranked insertion adds exactly `v` to the entries.
pub proof fn lemma_insert_ranked_contains(s: Seq<Video>, v: Video, x: Video)
    ensures
        spec_insert_ranked(s, v).contains(x) <==> (s.contains(x) || x == v),
        spec_insert_ranked(s, v).len() == s.len() + 1,
    decreases s.len(),
{
    if s.len() == 0 {
        assert(spec_insert_ranked(s, v) == seq![v]);
        assert(seq![v][0] == v);
        if x == v {
            assert(seq![v].contains(x));
        }
        if seq![v].contains(x) {
            let k = choose|k: int| 0 <= k < 1 && seq![v][k] == x;
            assert(x == v);
        }
    } else if ranks_before(v, s[0]) {
        assert(spec_insert_ranked(s, v) == seq![v] + s);
        assert forall|y: Video| (seq![v] + s).contains(y) implies s.contains(y) || y == v by {
            let k = choose|k: int| 0 <= k < (seq![v] + s).len() && (seq![v] + s)[k] == y;
            if k > 0 {
                assert(s[k - 1] == y);
            }
        }
        if s.contains(x) {
            let k = choose|k: int| 0 <= k < s.len() && s[k] == x;
            assert((seq![v] + s)[k + 1] == x);
        }
        if x == v {
            assert((seq![v] + s)[0] == x);
        }
    } else {
        let t = s.drop_first();
        lemma_insert_ranked_contains(t, v, x);
        let r = seq![s[0]] + spec_insert_ranked(t, v);
        assert(spec_insert_ranked(s, v) == r);
        assert forall|y: Video| r.contains(y) implies spec_insert_ranked(t, v).contains(y) || y
            == s[0] by {
            let k = choose|k: int| 0 <= k < r.len() && r[k] == y;
            if k > 0 {
                assert(spec_insert_ranked(t, v)[k - 1] == y);
            }
        }
        assert forall|y: Video| s.contains(y) implies y == s[0] || t.contains(y) by {
            let k = choose|k: int| 0 <= k < s.len() && s[k] == y;
            if k > 0 {
                assert(t[k - 1] == y);
            }
        }
        if spec_insert_ranked(t, v).contains(x) {
            let k = choose|k: int|
                0 <= k < spec_insert_ranked(t, v).len() && spec_insert_ranked(t, v)[k] == x;
            assert(r[k + 1] == x);
        }
        if x == s[0] {
            assert(r[0] == x);
        }
        if t.contains(x) {
            let k = choose|k: int| 0 <= k < t.len() && t[k] == x;
            assert(s[k + 1] == x);
        }
    }
}

/// Sorting keeps exactly the original entries.
pub proof fn lemma_sort_contains(s: Seq<Video>, x: Video)
    ensures
        spec_sort_videos(s).contains(x) <==> s.contains(x),
        spec_sort_videos(s).len() == s.len(),
    decreases s.len(),
{
    if s.len() > 0 {
        let t = s.drop_last();
        lemma_sort_contains(t, x);
        lemma_insert_ranked_contains(spec_sort_videos(t), s.last(), x);
        if s.contains(x) {
            let k = choose|k: int| 0 <= k < s.len() && s[k] == x;
            if k < s.len() - 1 {
                assert(t[k] == x);
            }
        }
        if t.contains(x) {
            let k = choose|k: int| 0 <= k < t.len() && t[k] == x;
            assert(s[k] == x);
        }
        if x == s.last() {
            assert(s.contains(x));
        }
    }
}

/// Ranked insertion into a strictly ranked sequence of distinct videos
/// stays strictly ranked, provided `v`'s identifier is fresh.
pub proof fn lemma_insert_ranked_sorted(s: Seq<Video>, v: Video)
    requires
        videos_ranked(s),
        videos_unique(s),
        forall|k: int| 0 <= k < s.len() ==> (#[trigger] s[k]).id@ != v.id@,
    ensures
        videos_ranked(spec_insert_ranked(s, v)),
        videos_unique(spec_insert_ranked(s, v)),
    decreases s.len(),
{
    if s.len() == 0 {
    } else if ranks_before(v, s[0]) {
        let r = seq![v] + s;
        assert forall|i: int, j: int| 0 <= i < j < r.len() implies ranks_before(
            #[trigger] r[i],
            #[trigger] r[j],
        ) by {
            if i == 0 {
                if j > 1 {
                    lemma_ranks_trans(v, s[0], s[j - 1]);
                }
            } else {
                assert(ranks_before(s[i - 1], s[j - 1]));
            }
        }
        assert forall|i: int, j: int| 0 <= i < j < r.len() implies (#[trigger] r[i]).id@ != (
        #[trigger] r[j]).id@ by {
            if i > 0 {
                assert(s[i - 1].id@ != s[j - 1].id@);
            } else {
                assert(s[j - 1].id@ != v.id@);
            }
        }
    } else {
        let t = s.drop_first();
        assert(videos_ranked(t));
        assert(forall|k: int| 0 <= k < t.len() ==> (#[trigger] t[k]).id@ != v.id@);
        lemma_insert_ranked_sorted(t, v);
        let rt = spec_insert_ranked(t, v);
        let r = seq![s[0]] + rt;
        assert(s[0].id@ != v.id@);
        lemma_ranks_total(s[0], v);
        assert(ranks_before(s[0], v));
        assert forall|i: int, j: int| 0 <= i < j < r.len() implies ranks_before(
            #[trigger] r[i],
            #[trigger] r[j],
        ) by {
            if i == 0 {
                lemma_insert_ranked_contains(t, v, rt[j - 1]);
                if rt[j - 1] == v {
                } else {
                    assert(t.contains(rt[j - 1]));
                    let k = choose|k: int| 0 <= k < t.len() && t[k] == rt[j - 1];
                    assert(ranks_before(s[0], s[k + 1]));
                }
            } else {
                assert(ranks_before(rt[i - 1], rt[j - 1]));
            }
        }
        assert forall|i: int, j: int| 0 <= i < j < r.len() implies (#[trigger] r[i]).id@ != (
        #[trigger] r[j]).id@ by {
            if i == 0 {
                lemma_insert_ranked_contains(t, v, rt[j - 1]);
                if rt[j - 1] == v {
                } else {
                    assert(t.contains(rt[j - 1]));
                    let k = choose|k: int| 0 <= k < t.len() && t[k] == rt[j - 1];
                    assert(s[0].id@ != s[k + 1].id@);
                }
            } else {
                assert(rt[i - 1].id@ != rt[j - 1].id@);
            }
        }
    }
}

/// Sorting a sequence of distinct well-formed videos yields a strictly
/// ranked sequence of the same distinct videos.
pub proof fn lemma_sort_sorted(s: Seq<Video>)
    requires
        videos_unique(s),
    ensures
        videos_ranked(spec_sort_videos(s)),
        videos_unique(spec_sort_videos(s)),
    decreases s.len(),
{
    if s.len() > 0 {
        let t = s.drop_last();
        assert(videos_unique(t));
        lemma_sort_sorted(t);
        let st = spec_sort_videos(t);
        assert forall|k: int| 0 <= k < st.len() implies (#[trigger] st[k]).id@
            != s.last().id@ by {
            lemma_sort_contains(t, st[k]);
            assert(t.contains(st[k]));
            let w = choose|w: int| 0 <= w < t.len() && t[w] == st[k];
            assert(t[w] == s[w]);
            assert(s[w].id@ != s[s.len() - 1].id@);
        }
        lemma_insert_ranked_sorted(st, s.last());
    }
}

/// Keyed collection of videos, indexed by each video's own identifier.
/// Iteration order is the order of first insertion.
#[derive(Debug, Clone, PartialEq, Eq)]
pub struct Videos {
    videos: Vec<Video>,
}

impl Videos {
    /// The videos, in insertion order.
    pub closed spec fn videos_seq(&self) -> Seq<Video> {
        self.videos@
    }

    pub open spec fn wf(&self) -> bool {
        &&& videos_unique(self.videos_seq())
        &&& videos_wf(self.videos_seq())
    }

    /// Some video carries the identifier `id`.
    pub open spec fn spec_has(&self, id: Seq<char>) -> bool {
        exists|i: int|
            0 <= i < self.videos_seq().len() && (#[trigger] self.videos_seq()[i]).id@ == id
    }

    /// The video at `id`, where one is present.
    pub open spec fn spec_get(&self, id: Seq<char>) -> Video
        recommends
            self.spec_has(id),
    {
        self.videos_seq()[choose|i: int|
            0 <= i < self.videos_seq().len() && (#[trigger] self.videos_seq()[i]).id@ == id]
    }

    pub fn new() -> (r: Self)
        ensures
            r.videos_seq() == Seq::<Video>::empty(),
            r.wf(),
    {
        Videos { videos: Vec::new() }
    }

    pub fn len(&self) -> (r: usize)
        ensures
            r == self.videos_seq().len(),
    {
        self.videos.len()
    }

    pub fn is_empty(&self) -> (r: bool)
        ensures
            r == (self.videos_seq().len() == 0),
    {
        self.videos.len() == 0
    }

    /// Drops every video.
    pub fn clear(&mut self)
        ensures
            final(self).videos_seq() == Seq::<Video>::empty(),
            final(self).wf(),
    {
        self.videos.clear();
    }

    /// The video at position `i`, in insertion order.
    pub fn video_at(&self, i: usize) -> (r: &Video)
        requires
            i < self.videos_seq().len(),
        ensures
            *r == self.videos_seq()[i as int],
    {
        &self.videos[i]
    }

    pub fn contains_key(&self, id: &str) -> (r: bool)
        requires
            self.wf(),
        ensures
            r == self.spec_has(id@),
    {
        let count = self.videos.len();
        for i in 0..count
            invariant
                count == self.videos_seq().len(),
                self.wf(),
                forall|k: int| 0 <= k < i ==> (#[trigger] self.videos_seq()[k]).id@ != id@,
        {
            if str_eq(self.videos[i].id.as_str(), id) {
                return true;
            }
        }
        false
    }

    /// A reference to the video with the given identifier, if any.
    pub fn get(&self, id: &str) -> (r: Option<&Video>)
        requires
            self.wf(),
        ensures
            match r {
                None => !self.spec_has(id@),
                Some(v) => self.spec_has(id@) && *v == self.spec_get(id@),
            },
    {
        let count = self.videos.len();
        for i in 0..count
            invariant
                count == self.videos_seq().len(),
                self.wf(),
                forall|k: int| 0 <= k < i ==> (#[trigger] self.videos_seq()[k]).id@ != id@,
        {
            if str_eq(self.videos[i].id.as_str(), id) {
                return Some(&self.videos[i]);
            }
        }
        None
    }

    /// A mutable reference to the video with the given identifier, if any.
    /// The collection stays well formed as long as the caller leaves the
    /// video's identifier unchanged and the video well formed.
    pub fn get_mut(&mut self, id: &str) -> (r: Option<&mut Video>)
        requires
            old(self).wf(),
        ensures
            match r {
                None => *final(self) == *old(self) && !old(self).spec_has(id@),
                Some(m) => exists|i: int|
                    #![auto]
                    {
                        &&& 0 <= i < old(self).videos_seq().len()
                        &&& old(self).videos_seq()[i].id@ == id@
                        &&& *m == old(self).videos_seq()[i]
                        &&& final(self).videos_seq() == old(self).videos_seq().update(
                            i,
                            *final(m),
                        )
                    },
            },
    {
        let count = self.videos.len();
        for i in 0..count
            invariant
                count == self.videos_seq().len(),
                self.wf(),
                *self == *old(self),
                forall|k: int| 0 <= k < i ==> (#[trigger] self.videos_seq()[k]).id@ != id@,
        {
            if str_eq(self.videos[i].id.as_str(), id) {
                let m = &mut self.videos[i];
                return Some(m);
            }
        }
        None
    }

    /// Stores the video under its own identifier, returning the video that
    /// previously carried it, if any.
    pub fn insert(&mut self, video: Video) -> (r: Option<Video>)
        requires
            old(self).wf(),
            video.wf(),
        ensures
            final(self).wf(),
            final(self).spec_has(video.id@),
            final(self).spec_get(video.id@) == video,
            match r {
                None => {
                    &&& !old(self).spec_has(video.id@)
                    &&& final(self).videos_seq() == old(self).videos_seq().push(video)
                },
                Some(prev) => {
                    &&& old(self).spec_has(video.id@)
                    &&& prev == old(self).spec_get(video.id@)
                    &&& exists|i: int|
                        #![auto]
                        0 <= i < old(self).videos_seq().len() && old(self).videos_seq()[i].id@
                            == video.id@ && final(self).videos_seq() == old(
                            self,
                        ).videos_seq().update(i, video)
                },
            },
    {
        let count = self.videos.len();
        for i in 0..count
            invariant
                count == self.videos_seq().len(),
                self.wf(),
                *self == *old(self),
                video.wf(),
                forall|k: int| 0 <= k < i ==> (#[trigger] self.videos_seq()[k]).id@ != video.id@,
        {
            if str_eq(self.videos[i].id.as_str(), video.id.as_str()) {
                let prev = self.videos.remove(i);
                self.videos.insert(i, video);
                proof {
                    assert(self.videos_seq() =~= old(self).videos_seq().update(i as int, video));
                }
                proof {
                    let s0 = old(self).videos_seq();
                    let s = self.videos_seq();
                    assert forall|a: int, b: int| 0 <= a < b < s.len() implies (
                    #[trigger] s[a]).id@ != (#[trigger] s[b]).id@ by {
                        assert(s0[a].id@ != s0[b].id@);
                    }
                    let w = choose|w: int| 0 <= w < s0.len() && (#[trigger] s0[w]).id@ == video.id@;
                    assert(w == i as int);
                    assert(s[i as int].id@ == video.id@);
                    assert(self.spec_has(video.id@));
                    let w2 = choose|w2: int|
                        0 <= w2 < s.len() && (#[trigger] s[w2]).id@ == video.id@;
                    assert(w2 == i as int);
                    assert(s[i as int] == video);
                    assert(self.spec_get(video.id@) == video);
                    assert(prev == s0[i as int]);
                    assert(old(self).spec_get(video.id@) == s0[w]);
                    assert forall|k: int| 0 <= k < s.len() implies (#[trigger] s[k]).wf() by {
                        if k != i as int {
                            assert(s[k] == s0[k]);
                            assert(s0[k].wf());
                        } else {
                            assert(s[k] == video);
                            assert(video.wf());
                        }
                    }
                }
                return Some(prev);
            }
        }
        self.videos.push(video);
        proof {
            let s0 = old(self).videos_seq();
            let s = self.videos_seq();
            assert forall|a: int, b: int| 0 <= a < b < s.len() implies (#[trigger] s[a]).id@ != (
            #[trigger] s[b]).id@ by {
                if b < s.len() - 1 {
                    assert(s0[a].id@ != s0[b].id@);
                }
            }
            assert(s[s.len() - 1].id@ == video.id@);
            assert(self.spec_has(video.id@));
            let w = choose|w: int| 0 <= w < s.len() && (#[trigger] s[w]).id@ == video.id@;
            assert(w == s.len() - 1);
            assert(s[s.len() - 1] == video);
            assert(self.spec_get(video.id@) == video);
            assert forall|k: int| 0 <= k < s.len() implies (#[trigger] s[k]).wf() by {
                if k < s.len() - 1 {
                    assert(s[k] == s0[k]);
                    assert(s0[k].wf());
                }
            }
        }
        None
    }

    /// Removes and returns the video at `id`, or nothing if it is absent.
    pub fn remove(&mut self, id: &str) -> (r: Option<Video>)
        requires
            old(self).wf(),
        ensures
            final(self).wf(),
            match r {
                None => *final(self) == *old(self) && !old(self).spec_has(id@),
                Some(v) => {
                    &&& old(self).spec_has(id@)
                    &&& v == old(self).spec_get(id@)
                    &&& !final(self).spec_has(id@)
                    &&& exists|i: int|
                        #![auto]
                        0 <= i < old(self).videos_seq().len() && old(self).videos_seq()[i].id@
                            == id@ && final(self).videos_seq() == old(self).videos_seq().remove(i)
                },
            },
    {
        let count = self.videos.len();
        for i in 0..count
            invariant
                count == self.videos_seq().len(),
                self.wf(),
                *self == *old(self),
                forall|k: int| 0 <= k < i ==> (#[trigger] self.videos_seq()[k]).id@ != id@,
        {
            if str_eq(self.videos[i].id.as_str(), id) {
                let v = self.videos.remove(i);
                proof {
                    let s0 = old(self).videos_seq();
                    let s = self.videos_seq();
                    assert(s == s0.remove(i as int));
                    assert forall|a: int, b: int| 0 <= a < b < s.len() implies (
                    #[trigger] s[a]).id@ != (#[trigger] s[b]).id@ by {
                        let aa = if a < i {
                            a
                        } else {
                            a + 1
                        };
                        let bb = if b < i {
                            b
                        } else {
                            b + 1
                        };
                        assert(s[a] == s0[aa] && s[b] == s0[bb]);
                        assert(s0[aa].id@ != s0[bb].id@);
                    }
                    let w = choose|w: int| 0 <= w < s0.len() && (#[trigger] s0[w]).id@ == id@;
                    assert(w == i as int);
                    assert(!self.spec_has(id@)) by {
                        if self.spec_has(id@) {
                            let k = choose|k: int| 0 <= k < s.len() && (#[trigger] s[k]).id@ == id@;
                            let kk = if k < i {
                                k
                            } else {
                                k + 1
                            };
                            assert(s0[kk].id@ == id@);
                        }
                    }
                }
                return Some(v);
            }
        }
        None
    }

    /// Removes and returns the first video, in insertion order.
    pub fn pop_first(&mut self) -> (r: Option<Video>)
        requires
            old(self).wf(),
        ensures
            final(self).wf(),
            match r {
                None => *final(self) == *old(self) && old(self).videos_seq().len() == 0,
                Some(v) => old(self).videos_seq().len() > 0 && v == old(self).videos_seq()[0]
                    && final(self).videos_seq() == old(self).videos_seq().drop_first(),
            },
    {
        if self.videos.len() == 0 {
            return None;
        }
        let v = self.videos.remove(0);
        proof {
            let s0 = old(self).videos_seq();
            let s = self.videos_seq();
            assert(s =~= s0.drop_first());
            assert forall|a: int, b: int| 0 <= a < b < s.len() implies (#[trigger] s[a]).id@
                != (#[trigger] s[b]).id@ by {
                assert(s[a] == s0[a + 1] && s[b] == s0[b + 1]);
                assert(s0[a + 1].id@ != s0[b + 1].id@);
            }
            assert forall|k: int| 0 <= k < s.len() implies (#[trigger] s[k]).wf() by {
                assert(s[k] == s0[k + 1]);
                assert(s0[k + 1].wf());
            }
        }
        Some(v)
    }

    /// The identifiers of the videos, in insertion order.
    pub fn keys(&self) -> (r: Vec<String>)
        ensures
            r@.len() == self.videos_seq().len(),
            forall|i: int|
                0 <= i < r@.len() ==> (#[trigger] r@[i])@ == self.videos_seq()[i].id@,
    {
        let count = self.videos.len();
        let mut out: Vec<String> = Vec::new();
        for i in 0..count
            invariant
                count == self.videos_seq().len(),
                out@.len() == i,
                forall|k: int|
                    0 <= k < i ==> (#[trigger] out@[k])@ == self.videos_seq()[k].id@,
        {
            out.push(self.videos[i].id.clone());
        }
        out
    }

    /// References to the videos, in insertion order.
    pub fn values(&self) -> (r: Vec<&Video>)
        ensures
            r@.len() == self.videos_seq().len(),
            forall|i: int| 0 <= i < r@.len() ==> *(#[trigger] r@[i]) == self.videos_seq()[i],
    {
        let count = self.videos.len();
        let mut out: Vec<&Video> = Vec::new();
        for i in 0..count
            invariant
                count == self.videos_seq().len(),
                out@.len() == i,
                forall|k: int| 0 <= k < i ==> *(#[trigger] out@[k]) == self.videos_seq()[k],
        {
            out.push(&self.videos[i]);
        }
        out
    }

    /// The page of videos of rank `page*size` up to `(page+1)*size` when
    /// ranked newest first; empty once `page*size` passes the count. The
    /// receiver is consumed: a page is a terminal view, not a cursor.
    #[verifier::rlimit(50)]
    pub fn pagify(self, page: usize, size: usize) -> (r: Videos)
        requires
            self.wf(),
        ensures
            r.wf(),
            ({
                let sorted = spec_sort_videos(self.videos_seq());
                let n = sorted.len() as int;
                let start = page as int * size as int;
                let end = (page as int + 1) * size as int;
                if start > n {
                    r.videos_seq() == Seq::<Video>::empty()
                } else {
                    r.videos_seq() == sorted.subrange(start, if end < n {
                        end
                    } else {
                        n
                    })
                }
            }),
    {
        proof {
            lemma_sort_sorted(self.videos_seq());
            lemma_sort_contains(self.videos_seq(), self.videos_seq()[0]);
        }
        let n = self.videos.len();
        proof {
            assert((page as int) * (size as int) < 0x100000000000000000000000000000000)
                by (nonlinear_arith)
                requires
                    0 <= (page as int) && (page as int) < 0x10000000000000000,
                    0 <= (size as int) && (size as int) < 0x10000000000000000,
            ;
        }
        let start128: u128 = page as u128 * size as u128;
        if start128 > n as u128 {
            return Videos::new();
        }
        let start: usize = start128 as usize;
        let end128: u128 = start128 + size as u128;
        let end: usize = if end128 < n as u128 {
            end128 as usize
        } else {
            n
        };

        // rank the videos, newest first, consuming the receiver
        let ghost s0 = self.videos_seq();
        let mut rest = self.videos;
        let mut sorted: Vec<Video> = Vec::new();
        let mut i: usize = 0;
        while i < n
            invariant
                i <= n,
                n == s0.len(),
                rest@ == s0.skip(i as int),
                sorted@ == spec_sort_videos(s0.take(i as int)),
            decreases n - i,
        {
            proof {
                assert(s0.skip(i as int)[0] == s0[i as int]);
            }
            let v = rest.remove(0);
            proof {
                assert(rest@ =~= s0.skip(i as int + 1));
            }
            let mut j: usize = 0;
            let slen = sorted.len();
            while j < slen && !ranks_before_exec(&v, &sorted[j])
                invariant
                    j <= slen,
                    slen == sorted@.len(),
                    sorted@ == spec_sort_videos(s0.take(i as int)),
                    v == s0[i as int],
                    i < s0.len(),
                    forall|k: int| 0 <= k < j ==> !ranks_before(v, #[trigger] sorted@[k]),
                decreases slen - j,
            {
                j = j + 1;
            }
            proof {
                lemma_insert_ranked_char(sorted@, v, j as int);
                assert(s0.take(i as int + 1).drop_last() =~= s0.take(i as int));
                assert(s0.take(i as int + 1).last() == v);
            }
            sorted.insert(j, v);
            i = i + 1;
        }
        proof {
            assert(s0.take(n as int) =~= s0);
            lemma_sort_sorted(s0);
        }

        // drop everything ranked before the window
        let ghost sorted_full = sorted@;
        let mut p: usize = 0;
        while p < start
            invariant
                p <= start,
                start <= end <= sorted_full.len(),
                sorted@ == sorted_full.skip(p as int),
            decreases start - p,
        {
            proof {
                assert(sorted@.remove(0) =~= sorted_full.skip(p as int + 1));
            }
            let _ = sorted.remove(0);
            p = p + 1;
        }

        // take the window itself
        let mut out: Vec<Video> = Vec::new();
        let mut t: usize = 0;
        let window = end - start;
        while t < window
            invariant
                t <= window,
                window == end - start,
                start <= end <= sorted_full.len(),
                sorted@ == sorted_full.skip(start as int + t as int),
                out@ == sorted_full.subrange(start as int, start as int + t as int),
            decreases window - t,
        {
            proof {
                assert(sorted@.len() > 0);
                assert(sorted@[0] == sorted_full[start as int + t as int]);
                assert(sorted@.remove(0) =~= sorted_full.skip(start as int + t as int + 1));
            }
            let v = sorted.remove(0);
            out.push(v);
            proof {
                assert(out@ =~= sorted_full.subrange(start as int, start as int + t as int + 1));
            }
            t = t + 1;
        }
        let r = Videos { videos: out };
        proof {
            let sorted_s = spec_sort_videos(s0);
            assert(sorted_full == sorted_s);
            assert(r.videos_seq() =~= sorted_s.subrange(start as int, end as int));
            assert forall|a: int, b: int| 0 <= a < b < r.videos_seq().len() implies (
            #[trigger] r.videos_seq()[a]).id@ != (#[trigger] r.videos_seq()[b]).id@ by {
                assert(sorted_s[start as int + a].id@ != sorted_s[start as int + b].id@);
            }
            assert forall|a: int|
                0 <= a < r.videos_seq().len() implies (#[trigger] r.videos_seq()[a]).wf() by {
                lemma_sort_contains(s0, sorted_s[start as int + a]);
                let w = choose|w: int| 0 <= w < s0.len() && s0[w] == sorted_s[start as int + a];
                assert(s0[w].wf());
            }
            assert(start as int == (page as int) * (size as int));
            assert(((page as int) + 1) * (size as int) == (page as int) * (size as int) + (
            size as int)) by (nonlinear_arith);
            let endi = ((page as int) + 1) * (size as int);
            assert(end as int == if endi < s0.len() {
                endi
            } else {
                s0.len() as int
            });
        }
        r
    }
}

/// Whether `a` outranks `b` for pagination.
pub fn ranks_before_exec(a: &Video, b: &Video) -> (r: bool)
    ensures
        r == ranks_before(*a, *b),
{
    if b.uploaded.lt(&a.uploaded) {
        true
    } else if a.uploaded == b.uploaded {
        str_lt_exec(a.id.as_str(), b.id.as_str())
    } else {
        false
    }
}

impl Default for Videos {
    /// The empty collection.
    fn default() -> (r: Self)
        ensures
            r.videos_seq() == Seq::<Video>::empty(),
            r.wf(),
    {
        Videos::new()
    }
}

} // verus!
