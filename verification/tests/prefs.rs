use proton_stream::config::{AppDirs, Stored};
use proton_stream::core_error::Error;
use proton_stream::player::MAX_VOLUME;
use proton_stream::prefs::{load, save, PlaybackPrefs};

#[test]
fn a_first_run_gets_full_volume_and_no_language_preference() {
    let prefs = PlaybackPrefs::default();
    assert_eq!(prefs.volume, Some(MAX_VOLUME));
    assert!(!prefs.muted);
    assert!(prefs.subtitles);
    assert_eq!(prefs.audio_language, None);
}

#[test]
fn prefs_what_was_saved_is_what_loads() {
    let dirs = AppDirs::from_paths("/config".into(), "/data".into(), "/cache".into());
    let prefs = PlaybackPrefs {
        volume: Some(42_000),
        muted: true,
        audio_language: Some("jpn".into()),
        subtitle_language: Some("eng".into()),
        subtitles: true,
        autoplay_next: false,
    };
    let written = save(&dirs, &prefs);
    assert_eq!(written.place.base, "/config");
    assert_eq!(written.place.parts, vec!["playback.json"]);
    assert_eq!(load("playback.json", Stored::Found(written.value)).unwrap(), prefs);
}

#[test]
fn a_volume_no_player_could_honour_is_clamped_rather_than_passed_on() {
    let prefs = PlaybackPrefs {
        volume: Some(900_000),
        ..PlaybackPrefs::default()
    }
    .sanitized();
    assert_eq!(prefs.volume, Some(MAX_VOLUME));

    let prefs = PlaybackPrefs {
        volume: None,
        ..PlaybackPrefs::default()
    }
    .sanitized();
    assert_eq!(prefs.volume, Some(MAX_VOLUME));

    let prefs = PlaybackPrefs {
        volume: Some(-1),
        ..PlaybackPrefs::default()
    }
    .sanitized();
    assert_eq!(prefs.volume, Some(0));
}

#[test]
fn a_language_set_to_blank_is_no_preference_rather_than_a_language_named_nothing() {
    let prefs = PlaybackPrefs {
        audio_language: Some("  ".into()),
        ..PlaybackPrefs::default()
    }
    .sanitized();
    assert_eq!(prefs.audio_language, None);
}

#[test]
fn preferences_that_will_not_parse_are_an_error() {
    assert_eq!(load("playback.json", Stored::Missing).unwrap(), PlaybackPrefs::default());
    assert_eq!(
        load("playback.json", Stored::Invalid("eof".into())),
        Err(Error::Config("playback.json is not valid config: eof".into()))
    );
}

#[test]
fn sanitizing_twice_changes_nothing_more() {
    let prefs = PlaybackPrefs {
        volume: Some(150_000),
        subtitle_language: Some(" ".into()),
        ..PlaybackPrefs::default()
    };
    let once = prefs.sanitized();
    assert_eq!(once.clone().sanitized(), once);
}
