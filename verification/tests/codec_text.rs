//! The stored text form: the sample archive fixture, and round trips.

use yark_archive::archive::Archive;
use yark_archive::codec::{emit_note, emit_videos, parse_note_at, parse_videos_at};
use yark_archive::date::YarkDate;
use yark_archive::elements::Elements;
use yark_archive::errors::Error;
use yark_archive::images::Images;
use yark_archive::note::{Note, Notes};
use yark_archive::video::{Video, Videos};
use yark_archive::wire::str_to_chars;

const OWEZ_VIDEOS_DATA: &str = r#"[{"id":"Jlsxl-1zQJM","uploaded":"2021-07-28T00:00:00","width":1280,"height":720,"title":{"2023-05-03T11:35:50.993963":"ArmA 3 replay 2021 07 28 13 58"},"description":{"2023-05-03T11:35:50.993966":""},"views":{"2023-05-03T11:35:50.993974":34},"likes":{"2023-05-03T11:35:50.993975":0},"thumbnail":{"2023-05-03T11:35:54.782905":"38552fc160089251e638457762f45dbff573c520"},"deleted":{"2023-05-03T11:35:54.782920":false},"notes":[]},{"id":"z6y0mx2flRY","uploaded":"2021-04-29T00:00:00","width":1920,"height":1080,"title":{"2023-05-03T11:35:54.783019":"GLORY TO ARSTOZKA"},"description":{"2023-05-03T11:35:54.783021":"quickly animated poster for graphics outcome"},"views":{"2023-05-03T11:35:54.783023":24},"likes":{"2023-05-03T11:35:54.783025":null},"thumbnail":{"2023-05-03T11:35:55.193654":"8706b76c30fd98551f9c5d246f7294ec173f1086"},"deleted":{"2023-05-03T11:35:55.193668":false},"notes":[]},{"id":"annp92OPZgQ","uploaded":"2021-01-04T00:00:00","width":2560,"height":1440,"title":{"2023-05-03T11:35:55.193818":"psychedelica."},"description":{"2023-05-03T11:35:55.193823":"trippy.\n\n\n\n\nmade with my https://github.com/owez/mkplay program. all revenue goes to artists if requested."},"views":{"2023-05-03T11:35:55.193824":91},"likes":{"2023-05-03T11:35:55.193827":1},"thumbnail":{"2023-05-03T11:35:59.093903":"6a5c95513799671d51f22776e648c56c24789402"},"deleted":{"2023-05-03T11:35:59.093915":false},"notes":[]},{"id":"Sl3XgtKYq4E","uploaded":"2021-01-02T00:00:00","width":2560,"height":1440,"title":{"2023-05-03T11:35:59.094000":"one more time."},"description":{"2023-05-03T11:35:59.094003":"another one.\n\n\n\n\nmade with https://github.com/owez/mkplay, all ad revenue goes to the creators when requested/took through copyright"},"views":{"2023-05-03T11:35:59.094005":51},"likes":{"2023-05-03T11:35:59.094007":3},"thumbnail":{"2023-05-03T11:35:59.483710":"3fe5be5ceacde668310ddcf4311d10fb72d54e11"},"deleted":{"2023-05-03T11:35:59.483724":false},"notes":[]},{"id":"iWJbkSCMQlg","uploaded":"2018-06-03T00:00:00","width":1152,"height":720,"title":{"2023-05-03T11:35:59.483813":"thank you gmod"},"description":{"2023-05-03T11:35:59.483815":"Just a normal day with a joop from hell."},"views":{"2023-05-03T11:35:59.483817":39},"likes":{"2023-05-03T11:35:59.483819":1},"thumbnail":{"2023-05-03T11:35:59.847311":"7658b9da282cec122cb03af02ac676442df58e34"},"deleted":{"2023-05-03T11:35:59.847323":false},"notes":[]}]"#;

const OWEZ_DATA: &str = r#"{"version":3,"url":"https://www.youtube.com/channel/UCSMdm6bUYIBN0KfS2CVuEPA","videos":[{"id":"Jlsxl-1zQJM","uploaded":"2021-07-28T00:00:00","width":1280,"height":720,"title":{"2023-05-03T11:35:50.993963":"ArmA 3 replay 2021 07 28 13 58"},"description":{"2023-05-03T11:35:50.993966":""},"views":{"2023-05-03T11:35:50.993974":34},"likes":{"2023-05-03T11:35:50.993975":0},"thumbnail":{"2023-05-03T11:35:54.782905":"38552fc160089251e638457762f45dbff573c520"},"deleted":{"2023-05-03T11:35:54.782920":false},"notes":[]},{"id":"z6y0mx2flRY","uploaded":"2021-04-29T00:00:00","width":1920,"height":1080,"title":{"2023-05-03T11:35:54.783019":"GLORY TO ARSTOZKA"},"description":{"2023-05-03T11:35:54.783021":"quickly animated poster for graphics outcome"},"views":{"2023-05-03T11:35:54.783023":24},"likes":{"2023-05-03T11:35:54.783025":null},"thumbnail":{"2023-05-03T11:35:55.193654":"8706b76c30fd98551f9c5d246f7294ec173f1086"},"deleted":{"2023-05-03T11:35:55.193668":false},"notes":[]},{"id":"annp92OPZgQ","uploaded":"2021-01-04T00:00:00","width":2560,"height":1440,"title":{"2023-05-03T11:35:55.193818":"psychedelica."},"description":{"2023-05-03T11:35:55.193823":"trippy.\n\n\n\n\nmade with my https://github.com/owez/mkplay program. all revenue goes to artists if requested."},"views":{"2023-05-03T11:35:55.193824":91},"likes":{"2023-05-03T11:35:55.193827":1},"thumbnail":{"2023-05-03T11:35:59.093903":"6a5c95513799671d51f22776e648c56c24789402"},"deleted":{"2023-05-03T11:35:59.093915":false},"notes":[]},{"id":"Sl3XgtKYq4E","uploaded":"2021-01-02T00:00:00","width":2560,"height":1440,"title":{"2023-05-03T11:35:59.094000":"one more time."},"description":{"2023-05-03T11:35:59.094003":"another one.\n\n\n\n\nmade with https://github.com/owez/mkplay, all ad revenue goes to the creators when requested/took through copyright"},"views":{"2023-05-03T11:35:59.094005":51},"likes":{"2023-05-03T11:35:59.094007":3},"thumbnail":{"2023-05-03T11:35:59.483710":"3fe5be5ceacde668310ddcf4311d10fb72d54e11"},"deleted":{"2023-05-03T11:35:59.483724":false},"notes":[]},{"id":"iWJbkSCMQlg","uploaded":"2018-06-03T00:00:00","width":1152,"height":720,"title":{"2023-05-03T11:35:59.483813":"thank you gmod"},"description":{"2023-05-03T11:35:59.483815":"Just a normal day with a joop from hell."},"views":{"2023-05-03T11:35:59.483817":39},"likes":{"2023-05-03T11:35:59.483819":1},"thumbnail":{"2023-05-03T11:35:59.847311":"7658b9da282cec122cb03af02ac676442df58e34"},"deleted":{"2023-05-03T11:35:59.847323":false},"notes":[]}],"livestreams":[],"shorts":[]}"#;

fn day(year: u32, month: u32, dayn: u32) -> YarkDate {
    YarkDate::new(year, month, dayn, 0, 0, 0, 0).unwrap()
}

fn stamp(hour: u32, minute: u32, second: u32, micros: u32) -> YarkDate {
    YarkDate::new(2023, 5, 3, hour, minute, second, micros * 1000).unwrap()
}

fn elements_new_existing<T>(dt: YarkDate, value: T) -> Elements<T> {
    Elements::new_existing(dt, value)
}

#[allow(clippy::too_many_arguments)]
fn owez_video(
    id: &str,
    uploaded: YarkDate,
    width: u32,
    height: u32,
    title: (YarkDate, &str),
    description: (YarkDate, &str),
    views: (YarkDate, Option<u32>),
    likes: (YarkDate, Option<u32>),
    thumbnail: (YarkDate, &str),
    deleted: (YarkDate, bool),
) -> Video {
    Video {
        id: id.to_string(),
        uploaded,
        width,
        height,
        title: elements_new_existing(title.0, title.1.to_string()),
        description: elements_new_existing(description.0, description.1.to_string()),
        views: elements_new_existing(views.0, views.1),
        likes: elements_new_existing(likes.0, likes.1),
        thumbnail: Images::new_existing(thumbnail.0, thumbnail.1.to_string()),
        deleted: elements_new_existing(deleted.0, deleted.1),
        notes: Notes::new(),
    }
}

fn owez_exp(path: &str) -> Archive {
    let mut exp = Archive::new(
        path.to_string(),
        "https://www.youtube.com/channel/UCSMdm6bUYIBN0KfS2CVuEPA".to_string(),
    );
    exp.videos.insert(owez_video(
        "Jlsxl-1zQJM",
        day(2021, 7, 28),
        1280,
        720,
        (stamp(11, 35, 50, 993963), "ArmA 3 replay 2021 07 28 13 58"),
        (stamp(11, 35, 50, 993966), ""),
        (stamp(11, 35, 50, 993974), Some(34)),
        (stamp(11, 35, 50, 993975), Some(0)),
        (stamp(11, 35, 54, 782905), "38552fc160089251e638457762f45dbff573c520"),
        (stamp(11, 35, 54, 782920), false),
    ));
    exp.videos.insert(owez_video(
        "z6y0mx2flRY",
        day(2021, 4, 29),
        1920,
        1080,
        (stamp(11, 35, 54, 783019), "GLORY TO ARSTOZKA"),
        (stamp(11, 35, 54, 783021), "quickly animated poster for graphics outcome"),
        (stamp(11, 35, 54, 783023), Some(24)),
        (stamp(11, 35, 54, 783025), None),
        (stamp(11, 35, 55, 193654), "8706b76c30fd98551f9c5d246f7294ec173f1086"),
        (stamp(11, 35, 55, 193668), false),
    ));
    exp.videos.insert(owez_video(
        "annp92OPZgQ",
        day(2021, 1, 4),
        2560,
        1440,
        (stamp(11, 35, 55, 193818), "psychedelica."),
        (stamp(11, 35, 55, 193823), "trippy.\n\n\n\n\nmade with my https://github.com/owez/mkplay program. all revenue goes to artists if requested."),
        (stamp(11, 35, 55, 193824), Some(91)),
        (stamp(11, 35, 55, 193827), Some(1)),
        (stamp(11, 35, 59, 93903), "6a5c95513799671d51f22776e648c56c24789402"),
        (stamp(11, 35, 59, 93915), false),
    ));
    exp.videos.insert(owez_video(
        "Sl3XgtKYq4E",
        day(2021, 1, 2),
        2560,
        1440,
        (stamp(11, 35, 59, 94000), "one more time."),
        (stamp(11, 35, 59, 94003), "another one.\n\n\n\n\nmade with https://github.com/owez/mkplay, all ad revenue goes to the creators when requested/took through copyright"),
        (stamp(11, 35, 59, 94005), Some(51)),
        (stamp(11, 35, 59, 94007), Some(3)),
        (stamp(11, 35, 59, 483710), "3fe5be5ceacde668310ddcf4311d10fb72d54e11"),
        (stamp(11, 35, 59, 483724), false),
    ));
    exp.videos.insert(owez_video(
        "iWJbkSCMQlg",
        day(2018, 6, 3),
        1152,
        720,
        (stamp(11, 35, 59, 483813), "thank you gmod"),
        (stamp(11, 35, 59, 483815), "Just a normal day with a joop from hell."),
        (stamp(11, 35, 59, 483817), Some(39)),
        (stamp(11, 35, 59, 483819), Some(1)),
        (stamp(11, 35, 59, 847311), "7658b9da282cec122cb03af02ac676442df58e34"),
        (stamp(11, 35, 59, 847323), false),
    ));
    exp
}

#[test]
fn load_data_owez() {
    let dummy_path = "";
    match Archive::from_data_str(dummy_path.to_string(), OWEZ_DATA) {
        Ok(archive) => assert_eq!(archive, owez_exp(dummy_path)),
        Err(err) => panic!("Error from code: {:?}", err),
    }
}

#[test]
fn load_data_owez_path() {
    let dummy_path = "hello/world/this/is/a/test";
    match Archive::from_data_str(dummy_path.to_string(), OWEZ_DATA) {
        Ok(archive) => assert_eq!(archive, owez_exp(dummy_path)),
        Err(err) => panic!("Error from code: {:?}", err),
    }
}

#[test]
fn owez_full_serde() {
    let dummy_path = "";
    let archive = owez_exp(dummy_path);
    let serialized = archive.to_data_str().expect("Failed to convert to string");
    let back = Archive::from_data_str(dummy_path.to_string(), &serialized)
        .expect("Failed to convert back to archive");
    assert_eq!(archive, back);
}

#[test]
fn videos_full_serde() {
    let videos = owez_exp("").videos;
    let mut converted = String::new();
    emit_videos(&mut converted, &videos);
    let chars = str_to_chars(&converted);
    let (back, used) = parse_videos_at(&chars, 0).expect("Videos back-into didn't work");
    assert_eq!(used, chars.len());
    assert_eq!(back, videos);
}

#[test]
fn videos_deserializing() {
    let exp = owez_exp("").videos;
    let chars = str_to_chars(OWEZ_VIDEOS_DATA);
    let (converted, used) = parse_videos_at(&chars, 0).expect("JSON conversion failed");
    assert_eq!(used, chars.len());
    assert_eq!(exp, converted);
}

#[test]
fn five_video_fixture_scenario() {
    let archive = Archive::from_data_str(String::new(), OWEZ_DATA).unwrap();
    assert_eq!(archive.videos.len(), 5);
    for id in ["Jlsxl-1zQJM", "z6y0mx2flRY", "annp92OPZgQ", "Sl3XgtKYq4E", "iWJbkSCMQlg"] {
        assert!(archive.videos.get(id).is_some());
    }
    let hidden_likes = archive.videos.get("z6y0mx2flRY").unwrap();
    assert_eq!(hidden_likes.likes.current().cloned(), Some(None));
    let visible = archive.videos.get("Jlsxl-1zQJM").unwrap();
    assert_eq!(visible.deleted.current(), Some(&false));
}

#[test]
fn note_serialization() {
    let note = Note {
        id: yark_archive::ids::generate_id(),
        timestamp: 120,
        title: "Test Note".to_string(),
        description: Some("This is a test note".to_string()),
    };
    let mut serialized_note = String::new();
    emit_note(&mut serialized_note, &note);
    let chars = str_to_chars(&serialized_note);
    let (deserialized_note, used) = parse_note_at(&chars, 0).unwrap();
    assert_eq!(used, chars.len());
    assert_eq!(note, deserialized_note);
}

#[test]
fn escaped_text_survives_the_round_trip() {
    let note = Note {
        id: "n1".to_string(),
        timestamp: 0,
        title: "tab\there \"quoted\" back\\slash\nnewline \u{1F} control".to_string(),
        description: None,
    };
    let mut out = String::new();
    emit_note(&mut out, &note);
    let chars = str_to_chars(&out);
    let (back, used) = parse_note_at(&chars, 0).unwrap();
    assert_eq!(used, chars.len());
    assert_eq!(note, back);
}

#[test]
fn corrupted_data_is_refused() {
    assert_eq!(
        Archive::from_data_str(String::new(), "not an archive"),
        Err(Error::DataLoad)
    );
    assert_eq!(
        Archive::from_data_str(String::new(), "{\"version\":3}"),
        Err(Error::DataLoad)
    );
    // trailing content after a whole archive is refused too
    let good = owez_exp("").to_data_str().unwrap();
    let padded = format!("{} ", good);
    assert_eq!(
        Archive::from_data_str(String::new(), &padded),
        Err(Error::DataLoad)
    );
}
