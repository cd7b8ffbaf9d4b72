//! Reporting over an archive: which videos changed enough, recently
//! enough, to deserve a closer look, and on what timescale.

use vstd::prelude::*;
use crate::archive::Archive;
use crate::date::YarkDate;
use crate::elements::Elements;
use crate::video::Video;
use crate::video::Videos;

verus! {

/// The timescale a changed field is worth focusing on, carrying how many
/// entries fell inside it.
#[derive(Debug, Clone, Copy, PartialEq, Eq, Structural)]
pub enum ReportFocus {
    Month(usize),
    Year(usize),
}

/// A video worth reporting on, with the focus of each changed field.
#[derive(Debug, PartialEq)]
pub struct VideoReport {
    pub video: Video,
    pub title: Option<ReportFocus>,
    pub description: Option<ReportFocus>,
}

/// Focuses for every partition of an archive.
#[derive(Debug, PartialEq)]
pub struct Report {
    pub videos: Vec<VideoReport>,
    pub livestreams: Vec<VideoReport>,
    pub shorts: Vec<VideoReport>,
}

/// How many entries are dated at the cutoff or after it.
pub open spec fn count_since<T>(s: Seq<(YarkDate, T)>, cutoff: YarkDate) -> int
    decreases s.len(),
{
    if s.len() == 0 {
        0
    } else {
        count_since(s.drop_last(), cutoff) + if !s.last().0.spec_lt(cutoff) {
            1int
        } else {
            0int
        }
    }
}

/// The focus a series earns from its entry counts: none below two entries
/// or with nothing recent, a year focus when the yearly pace dwarfs the
/// monthly one, a month focus otherwise.
pub open spec fn spec_focus(len: int, month_count: int, year_count: int) -> Option<ReportFocus> {
    if len < 2 {
        None
    } else if month_count == 0 && year_count == 0 {
        None
    } else if year_count / 12 > month_count {
        Some(ReportFocus::Year(year_count as usize))
    } else {
        Some(ReportFocus::Month(month_count as usize))
    }
}

/// The report one video earns against the two cutoffs.
pub open spec fn spec_video_report(v: Video, month_ago: YarkDate, year_ago: YarkDate)
    -> VideoReport {
    VideoReport {
        video: v,
        title: spec_focus(
            v.title.entries_seq().len() as int,
            count_since(v.title.entries_seq(), month_ago),
            count_since(v.title.entries_seq(), year_ago),
        ),
        description: spec_focus(
            v.description.entries_seq().len() as int,
            count_since(v.description.entries_seq(), month_ago),
            count_since(v.description.entries_seq(), year_ago),
        ),
    }
}

/// A report is interesting when either field earned a focus.
pub open spec fn spec_interesting(r: VideoReport) -> bool {
    r.title is Some || r.description is Some
}

/// The interesting reports of a partition, in its order.
pub open spec fn spec_reports(s: Seq<Video>, month_ago: YarkDate, year_ago: YarkDate) -> Seq<
    VideoReport,
>
    decreases s.len(),
{
    if s.len() == 0 {
        Seq::empty()
    } else {
        let rest = spec_reports(s.drop_last(), month_ago, year_ago);
        let rep = spec_video_report(s.last(), month_ago, year_ago);
        if spec_interesting(rep) {
            rest.push(rep)
        } else {
            rest
        }
    }
}

impl ReportFocus {
    /// The focus a series earns against the two cutoffs.
    pub fn from_elements<T>(
        value: &Elements<T>,
        month_ago: &YarkDate,
        year_ago: &YarkDate,
    ) -> (r: Option<ReportFocus>)
        ensures
            r == spec_focus(
                value.entries_seq().len() as int,
                count_since(value.entries_seq(), *month_ago),
                count_since(value.entries_seq(), *year_ago),
            ),
    {
        let n = value.len();
        if n < 2 {
            return None;
        }
        let mut month_count: usize = 0;
        let mut year_count: usize = 0;
        for i in 0..n
            invariant
                n == value.entries_seq().len(),
                month_count <= i,
                year_count <= i,
                month_count as int == count_since(value.entries_seq().take(i as int), *month_ago),
                year_count as int == count_since(value.entries_seq().take(i as int), *year_ago),
        {
            let entry = value.entry_at(i);
            proof {
                assert(value.entries_seq().take(i as int + 1).drop_last() =~= value.entries_seq()
                    .take(i as int));
                assert(value.entries_seq().take(i as int + 1).last() == value.entries_seq()[
                    i as int]);
            }
            if !entry.0.lt(month_ago) {
                month_count = month_count + 1;
            }
            if !entry.0.lt(year_ago) {
                year_count = year_count + 1;
            }
        }
        proof {
            assert(value.entries_seq().take(n as int) =~= value.entries_seq());
        }
        if month_count == 0 && year_count == 0 {
            None
        } else if year_count / 12 > month_count {
            Some(ReportFocus::Year(year_count))
        } else {
            Some(ReportFocus::Month(month_count))
        }
    }
}

/// The interesting reports of one partition, which is consumed.
fn reports_for(videos: Videos, month_ago: &YarkDate, year_ago: &YarkDate) -> (r: Vec<VideoReport>)
    requires
        videos.wf(),
    ensures
        r@ == spec_reports(videos.videos_seq(), *month_ago, *year_ago),
{
    let ghost s0 = videos.videos_seq();
    let mut rest = videos;
    let mut out: Vec<VideoReport> = Vec::new();
    let mut i: usize = 0;
    let n = rest.len();
    while i < n
        invariant
            i <= n,
            n == s0.len(),
            rest.wf(),
            rest.videos_seq() == s0.skip(i as int),
            out@ == spec_reports(s0.take(i as int), *month_ago, *year_ago),
        decreases n - i,
    {
        proof {
            assert(s0.skip(i as int)[0] == s0[i as int]);
        }
        let v = match rest.pop_first() {
            Some(v) => v,
            None => {
                proof {
                    assert(false);
                }
                return out;
            },
        };
        proof {
            assert(rest.videos_seq() =~= s0.skip(i as int + 1));
        }
        let title = ReportFocus::from_elements(&v.title, month_ago, year_ago);
        let description = ReportFocus::from_elements(&v.description, month_ago, year_ago);
        let interesting = title.is_some() || description.is_some();
        let rep = VideoReport { video: v, title, description };
        proof {
            assert(s0.take(i as int + 1).drop_last() =~= s0.take(i as int));
            assert(s0.take(i as int + 1).last() == s0[i as int]);
            assert(rep == spec_video_report(s0[i as int], *month_ago, *year_ago));
        }
        if interesting {
            out.push(rep);
        }
        i = i + 1;
    }
    proof {
        assert(s0.take(n as int) =~= s0);
    }
    out
}

impl Report {
    /// The report an archive earns against the two cutoffs; the archive is
    /// consumed, each partition contributing its interesting videos in
    /// order.
    pub fn generate(archive: Archive, month_ago: &YarkDate, year_ago: &YarkDate) -> (r: Report)
        requires
            archive.wf(),
        ensures
            r.videos@ == spec_reports(archive.videos.videos_seq(), *month_ago, *year_ago),
            r.livestreams@ == spec_reports(
                archive.livestreams.videos_seq(),
                *month_ago,
                *year_ago,
            ),
            r.shorts@ == spec_reports(archive.shorts.videos_seq(), *month_ago, *year_ago),
    {
        Report {
            videos: reports_for(archive.videos, month_ago, year_ago),
            livestreams: reports_for(archive.livestreams, month_ago, year_ago),
            shorts: reports_for(archive.shorts, month_ago, year_ago),
        }
    }

    /// The report an archive earns right now, against cutoffs a month and
    /// a year back from one single reading of the wall clock, the year
    /// cutoff never after the month cutoff.
    pub fn from_archive(archive: Archive) -> (r: Report)
        requires
            archive.wf(),
        ensures
            exists|ma: YarkDate, ya: YarkDate|
                #![auto]
                {
                    &&& ma.wf() && ya.wf() && ya.spec_le(ma)
                    &&& r.videos@ == spec_reports(archive.videos.videos_seq(), ma, ya)
                    &&& r.livestreams@ == spec_reports(archive.livestreams.videos_seq(), ma, ya)
                    &&& r.shorts@ == spec_reports(archive.shorts.videos_seq(), ma, ya)
                },
    {
        let (month_ago, year_ago) = YarkDate::recent_cutoffs(30, 365);
        Report::generate(archive, &month_ago, &year_ago)
    }
}

} // verus!
