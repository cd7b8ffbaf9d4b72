//! The reporting focus: which changed fields deserve a look, and when.

use yark_archive::archive::Archive;
use yark_archive::date::YarkDate;
use yark_archive::elements::Elements;
use yark_archive::images::Images;
use yark_archive::note::Notes;
use yark_archive::report::{Report, ReportFocus};
use yark_archive::video::Video;

fn date(year: u32, month: u32, day: u32) -> YarkDate {
    YarkDate::new(year, month, day, 0, 0, 0, 0).unwrap()
}

#[test]
fn more_than_year_ago() {
    let mut elements = Elements::new();
    let two_years_ago = YarkDate::days_ago(365 * 2);
    elements.insert(two_years_ago, "hello!");
    let _ = ReportFocus::from_elements(&elements, &YarkDate::days_ago(30), &YarkDate::days_ago(365));
}

#[test]
fn focus_counts_recent_entries() {
    let month_ago = date(2023, 4, 3);
    let year_ago = date(2022, 5, 3);
    let mut titles = Elements::new();
    titles.insert(date(2021, 1, 1), "ancient");
    titles.insert(date(2023, 4, 10), "fresh");
    titles.insert(date(2023, 4, 20), "fresher");
    assert_eq!(
        ReportFocus::from_elements(&titles, &month_ago, &year_ago),
        Some(ReportFocus::Month(2))
    );

    let mut single = Elements::new();
    single.insert(date(2023, 4, 10), "only");
    assert_eq!(ReportFocus::from_elements(&single, &month_ago, &year_ago), None);

    let mut stale = Elements::new();
    stale.insert(date(2020, 1, 1), "a");
    stale.insert(date(2020, 2, 1), "b");
    assert_eq!(ReportFocus::from_elements(&stale, &month_ago, &year_ago), None);
}

#[test]
fn report_keeps_only_interesting_videos() {
    let month_ago = date(2023, 4, 3);
    let year_ago = date(2022, 5, 3);

    let mut busy_titles = Elements::new();
    busy_titles.insert(date(2023, 4, 10), "one".to_string());
    busy_titles.insert(date(2023, 4, 11), "two".to_string());
    let busy = Video {
        id: "busy".to_string(),
        uploaded: date(2021, 1, 1),
        width: 0,
        height: 0,
        title: busy_titles,
        description: Elements::new(),
        views: Elements::new(),
        likes: Elements::new(),
        thumbnail: Images::new(),
        deleted: Elements::new(),
        notes: Notes::new(),
    };
    let quiet = Video {
        id: "quiet".to_string(),
        uploaded: date(2021, 1, 2),
        width: 0,
        height: 0,
        title: Elements::new(),
        description: Elements::new(),
        views: Elements::new(),
        likes: Elements::new(),
        thumbnail: Images::new(),
        deleted: Elements::new(),
        notes: Notes::new(),
    };

    let mut archive = Archive::new("p".to_string(), "u".to_string());
    archive.videos.insert(busy);
    archive.videos.insert(quiet);

    let report = Report::generate(archive, &month_ago, &year_ago);
    assert_eq!(report.videos.len(), 1);
    assert_eq!(report.videos[0].video.id, "busy");
    assert_eq!(report.videos[0].title, Some(ReportFocus::Month(2)));
    assert_eq!(report.videos[0].description, None);
    assert!(report.livestreams.is_empty());
    assert!(report.shorts.is_empty());
}
