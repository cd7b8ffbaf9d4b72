//! Collections: pagination, cross-partition lookup, notes, the manager.

use yark_archive::archive::Archive;
use yark_archive::date::YarkDate;
use yark_archive::elements::Elements;
use yark_archive::errors::Error;
use yark_archive::images::Images;
use yark_archive::manager::Manager;
use yark_archive::note::{Note, Notes};
use yark_archive::video::{Video, Videos};

fn date(year: u32, month: u32, day: u32) -> YarkDate {
    YarkDate::new(year, month, day, 0, 0, 0, 0).unwrap()
}

fn bare_video(id: &str, uploaded: YarkDate, width: u32, height: u32) -> Video {
    Video {
        id: id.to_string(),
        uploaded,
        width,
        height,
        title: Elements::new(),
        description: Elements::new(),
        views: Elements::new(),
        likes: Elements::new(),
        thumbnail: Images::new(),
        deleted: Elements::new(),
        notes: Notes::new(),
    }
}

#[test]
fn pagification() {
    let early = date(1, 1, 1);
    let video1 = bare_video("1", YarkDate::now(), 1920, 1080);
    let video2 = bare_video("2", early, 1280, 720);
    let video3 = bare_video("3", YarkDate::now(), 1920, 1080);
    let video4 = bare_video("4", early, 1280, 720);

    let mut videos_list = Videos::new();
    videos_list.insert(video1);
    videos_list.insert(video2.clone());
    videos_list.insert(video3);
    videos_list.insert(video4.clone());

    let paginated_videos = videos_list.pagify(1, 2);
    let mut expected_videos = Videos::new();
    expected_videos.insert(video2);
    expected_videos.insert(video4);

    assert_eq!(paginated_videos, expected_videos);
}

#[test]
fn pagify_past_the_count_is_empty() {
    let mut videos = Videos::new();
    videos.insert(bare_video("a", date(2020, 1, 1), 0, 0));
    videos.insert(bare_video("b", date(2021, 1, 1), 0, 0));
    let page = videos.pagify(5, 2);
    assert!(page.is_empty());
}

#[test]
fn pagify_sorts_newest_first() {
    let mut videos = Videos::new();
    videos.insert(bare_video("old", date(2018, 1, 1), 0, 0));
    videos.insert(bare_video("new", date(2022, 1, 1), 0, 0));
    videos.insert(bare_video("mid", date(2020, 1, 1), 0, 0));
    let page = videos.pagify(0, 2);
    assert_eq!(page.len(), 2);
    assert_eq!(page.video_at(0).id, "new");
    assert_eq!(page.video_at(1).id, "mid");
}

#[test]
fn cross_partition_lookup_reaches_shorts() {
    let mut archive = Archive::new("p".to_string(), "u".to_string());
    archive.videos.insert(bare_video("v1", date(2020, 1, 1), 0, 0));
    archive.livestreams.insert(bare_video("l1", date(2020, 1, 2), 0, 0));
    archive.shorts.insert(bare_video("s1", date(2020, 1, 3), 0, 0));

    let found = archive.get_video("s1").expect("short not found");
    assert_eq!(found.id, "s1");
    assert_eq!(archive.get_video("v1").unwrap().id, "v1");
    assert_eq!(archive.get_video("l1").unwrap().id, "l1");
    assert!(archive.get_video("missing").is_none());

    let via_mut = archive.get_video_mut("s1").expect("short not found");
    via_mut.width = 99;
    assert_eq!(archive.shorts.get("s1").unwrap().width, 99);
}

#[test]
fn video_collection_keyed_semantics() {
    let mut videos = Videos::new();
    assert!(videos.is_empty());
    assert!(videos.insert(bare_video("x", date(2020, 1, 1), 1, 1)).is_none());
    assert!(videos.contains_key("x"));
    assert_eq!(videos.len(), 1);
    // replacing under the same id keeps the count
    let prev = videos.insert(bare_video("x", date(2021, 1, 1), 2, 2));
    assert_eq!(prev.unwrap().width, 1);
    assert_eq!(videos.len(), 1);
    assert_eq!(videos.get("x").unwrap().width, 2);
    let removed = videos.remove("x").unwrap();
    assert_eq!(removed.width, 2);
    assert!(videos.remove("x").is_none());
    assert!(!videos.contains_key("x"));
    assert_eq!(videos.keys().len(), 0);
    videos.insert(bare_video("y", date(2020, 1, 1), 1, 1));
    assert_eq!(videos.keys(), vec!["y".to_string()]);
    assert_eq!(videos.values().len(), 1);
    videos.clear();
    assert!(videos.is_empty());
}

#[test]
fn notes_keyed_semantics() {
    let mut notes = Notes::new();
    let n1 = Note { id: "a".to_string(), timestamp: 5, title: "t".to_string(), description: None };
    notes.insert(n1.clone());
    assert_eq!(notes.get("a"), Some(&n1));
    assert!(notes.get("b").is_none());
    let n1b = Note {
        id: "a".to_string(),
        timestamp: 9,
        title: "t2".to_string(),
        description: Some("d".to_string()),
    };
    notes.insert(n1b.clone());
    assert_eq!(notes.len(), 1);
    assert_eq!(notes.get("a"), Some(&n1b));
    notes.get_mut("a").unwrap().timestamp = 11;
    assert_eq!(notes.get("a").unwrap().timestamp, 11);
    let removed = notes.remove("a").unwrap();
    assert_eq!(removed.title, "t2");
    assert!(notes.remove("a").is_none());
}

#[test]
fn manager_keyed_semantics() {
    let mut manager = Manager::new("m".to_string());
    let alpha = Archive::new("pa".to_string(), "ua".to_string());
    let bravo = Archive::new("pb".to_string(), "ub".to_string());
    let alpha_id = manager.insert_new(alpha);
    assert_eq!(alpha_id.len(), 36);
    let bravo_id = manager.insert_new(bravo);
    assert!(manager.get(&alpha_id).is_some());
    assert_eq!(manager.get(&alpha_id).unwrap().url, "ua");
    manager.remove(&bravo_id);
    assert!(manager.get(&bravo_id).is_none());
    manager.get_mut(&alpha_id).unwrap().url = "ua2".to_string();
    assert_eq!(manager.get(&alpha_id).unwrap().url, "ua2");
}

#[test]
fn version_gate() {
    let mut manager = Manager::new("m".to_string());
    let good = Archive::new("pa".to_string(), "ua".to_string());
    let mut bad = Archive::new("pb".to_string(), "ub".to_string());
    bad.version = 2;

    manager.insert_existing("one".to_string(), good.clone());
    assert_eq!(manager.ensure_compat(), Ok(()));

    manager.insert_existing("two".to_string(), bad);
    assert_eq!(manager.ensure_compat(), Err(Error::IncompatibleVersion(2)));

    let described = Error::IncompatibleVersion(2).describe();
    assert_eq!(described, "version found was 2 but this crate understands 3");
}

#[test]
fn manager_full_serde() {
    let mut manager = Manager::new("m".to_string());
    let mut inner = Archive::new("inner-path".to_string(), "inner-url".to_string());
    inner.videos.insert(bare_video("v", date(2020, 5, 5), 3, 4));
    manager.insert_existing("id-1".to_string(), inner);

    let text = manager.to_data_str().unwrap();
    let back = Manager::from_data_str("m".to_string(), &text).unwrap();
    assert_eq!(back.version, manager.version);
    assert_eq!(back.len(), 1);
    // the stored form does not carry archive paths
    let restored = back.get("id-1").unwrap();
    assert_eq!(restored.path, "");
    assert_eq!(restored.url, "inner-url");
    assert_eq!(restored.videos, manager.get("id-1").unwrap().videos);

    assert_eq!(
        Manager::from_data_str("m".to_string(), "nonsense"),
        Err(Error::DataLoad)
    );
}

#[test]
fn path_helpers_build_expected_locations() {
    let archive = Archive::new("/data/chan".to_string(), "u".to_string());
    let (webm, mp4) = archive.path_video("abc");
    assert_eq!(webm, "/data/chan/videos/abc.webm");
    assert_eq!(mp4, "/data/chan/videos/abc.mp4");
    assert_eq!(archive.path_image("ffee"), "/data/chan/thumbnails/ffee.webp");
}
