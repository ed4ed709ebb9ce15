use proton_stream::config::{AppDirs, Stored};
use proton_stream::metadata::{MetadataConfig, ProviderId};
use proton_stream::settings::{api_key, key_to_read, load, save, set_api_key, KeyChange};

fn dirs() -> AppDirs {
    AppDirs::from_paths("/config".into(), "/data".into(), "/cache".into())
}

#[test]
fn settings_round_trip_and_default_to_off() {
    assert_eq!(
        load("metadata.json", Stored::Missing).expect("load"),
        MetadataConfig::default()
    );
    assert!(!load("metadata.json", Stored::Missing).expect("load").enabled);

    let written = save(
        &dirs(),
        MetadataConfig {
            enabled: true,
            provider: ProviderId::Tmdb,
            language: "de".into(),
        },
    );
    assert_eq!(written.place.parts, vec!["metadata.json"]);
    let config = load("metadata.json", Stored::Found(written.value)).expect("load");
    assert!(config.enabled);
    assert_eq!(config.provider, ProviderId::Tmdb);
    assert_eq!(config.language, "de");
    assert!(load("metadata.json", Stored::Invalid("eof".into())).is_err());
}

#[test]
fn a_provider_that_needs_no_key_never_has_one() {
    assert_eq!(api_key(ProviderId::AniList, Ok("a key".into())), None);
    assert_eq!(key_to_read(ProviderId::AniList), None);
}

#[test]
fn a_store_that_cannot_be_read_has_no_key() {
    assert_eq!(key_to_read(ProviderId::Tmdb), Some("metadata-tmdb".into()));
    assert_eq!(api_key(ProviderId::Tmdb, Ok("k".into())), Some("k".into()));
    assert_eq!(api_key(ProviderId::Tmdb, Err("locked".into())), None);
}

#[test]
fn a_blank_key_is_forgotten_rather_than_stored() {
    assert_eq!(
        set_api_key(ProviderId::Tmdb, " \t"),
        KeyChange::Forget("metadata-tmdb".into())
    );
    assert_eq!(
        set_api_key(ProviderId::AniList, " k "),
        KeyChange::Keep("metadata-anilist".into(), " k ".into())
    );
}
