//! The serving-layer values: configuration, the bearer check, updates.

use yark_archive::api::{
    apply_note_update, check, gen_env_var_name, ApiError, Config, DirectoryItem,
    GetVideoCollectionKind, UpdateJsonSchema,
};
use yark_archive::archive::Archive;
use yark_archive::note::Note;

fn full_vars() -> (Option<String>, Option<String>, Option<String>, Option<String>) {
    (
        Some("127.0.0.1".to_string()),
        Some("7667".to_string()),
        Some("SECRET-REDACTED".to_string()),
        Some("/data/manager.json".to_string()),
    )
}

#[test]
fn from_vars_builds_the_config() {
    let (h, p, a, m) = full_vars();
    let config = Config::from_vars(h, p, a, m).unwrap();
    assert_eq!(config.host, "127.0.0.1");
    assert_eq!(config.port, 7667);
    assert_eq!(config.admin_secret, "SECRET-REDACTED");
    assert_eq!(config.manager_path, "/data/manager.json");
}

#[test]
fn from_vars_names_the_missing_variable() {
    let (_, p, a, m) = full_vars();
    assert_eq!(
        Config::from_vars(None, p, a, m),
        Err(ApiError::EnvVarMissing("YARK_HOST".to_string()))
    );
    let (h, _, a, m) = full_vars();
    assert_eq!(
        Config::from_vars(h, None, a, m),
        Err(ApiError::EnvVarMissing("YARK_PORT".to_string()))
    );
    let (h, p, _, m) = full_vars();
    assert_eq!(
        Config::from_vars(h, p, None, m),
        Err(ApiError::EnvVarMissing("YARK_ADMIN_SECRET".to_string()))
    );
    let (h, p, a, _) = full_vars();
    assert_eq!(
        Config::from_vars(h, p, a, None),
        Err(ApiError::EnvVarMissing("YARK_MANAGER_PATH".to_string()))
    );
}

#[test]
fn from_vars_rejects_an_unparsable_port() {
    for bad in ["eighty", "80!", "", "+", "-80", "4294967296", "004294967296"] {
        let (h, _, a, m) = full_vars();
        assert_eq!(
            Config::from_vars(h, Some(bad.to_string()), a, m),
            Err(ApiError::EnvVarInvalid("YARK_PORT".to_string()))
        );
    }
}

#[test]
fn from_vars_parses_ports_as_rust_does() {
    for (text, expected) in [
        ("0080", 80u32),
        ("+80", 80),
        ("0", 0),
        ("00000000000000000080", 80),
        ("+0004294967295", 4294967295),
    ] {
        assert_eq!(text.parse::<u32>().unwrap(), expected);
        let (h, _, a, m) = full_vars();
        let config = Config::from_vars(h, Some(text.to_string()), a, m).unwrap();
        assert_eq!(config.port, expected);
    }
}

#[test]
fn gen_env_var_name_prefixes() {
    assert_eq!(gen_env_var_name("HOST"), "YARK_HOST");
    assert_eq!(gen_env_var_name("X"), "YARK_X");
}

#[test]
fn bearer_check() {
    let (h, p, a, m) = full_vars();
    let config = Config::from_vars(h, p, a, m).unwrap();
    assert!(check(&config, "SECRET-REDACTED").is_ok());
    assert_eq!(check(&config, "wrong"), Err(ApiError::InvalidAdminSecret));
}

#[test]
fn collection_picks_the_asked_partition() {
    let archive = Archive::new("p".to_string(), "u".to_string());
    assert_eq!(*archive.collection(GetVideoCollectionKind::Videos), archive.videos);
    assert_eq!(
        *archive.collection(GetVideoCollectionKind::Livestreams),
        archive.livestreams
    );
    assert_eq!(*archive.collection(GetVideoCollectionKind::Shorts), archive.shorts);
}

#[test]
fn note_update_touches_only_present_fields() {
    let mut note = Note {
        id: "n".to_string(),
        timestamp: 10,
        title: "old".to_string(),
        description: Some("keep".to_string()),
    };
    apply_note_update(
        &mut note,
        UpdateJsonSchema { timestamp: Some(20), title: None, description: None },
    );
    assert_eq!(note.timestamp, 20);
    assert_eq!(note.title, "old");
    assert_eq!(note.description.as_deref(), Some("keep"));

    apply_note_update(
        &mut note,
        UpdateJsonSchema {
            timestamp: None,
            title: Some("new".to_string()),
            description: Some(None),
        },
    );
    assert_eq!(note.timestamp, 20);
    assert_eq!(note.title, "new");
    assert_eq!(note.description, None);
}

#[test]
fn directory_items_derive_the_hidden_flag() {
    let visible = DirectoryItem::new("/a/b".to_string(), "b".to_string(), true, false);
    assert!(!visible.hidden);
    let hidden = DirectoryItem::new("/a/.git".to_string(), ".git".to_string(), true, false);
    assert!(hidden.hidden);
    assert_eq!(hidden.path, "/a/.git");
    assert!(!hidden.archive);
}
