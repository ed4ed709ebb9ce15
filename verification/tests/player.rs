use proton_stream::chapters::Chapter;
use proton_stream::player::{
    clamp_volume, gl_candidates, initial_options, observed_properties, translate, video_size,
    EndReason, MpvEvent, PlayerConfig, PlayerEvent, PropertyFormat, PropertyValue, Setting,
    VideoOutput, MAX_VOLUME,
};
use proton_stream::tracks::{Track, TrackKind};

#[test]
fn every_end_reason_maps_to_something_the_ui_can_act_on() {
    // End of file, stop, quit, error and redirect, as the player numbers them.
    assert_eq!(EndReason::from(0), EndReason::Eof);
    assert_eq!(EndReason::from(2), EndReason::Stopped);
    assert_eq!(EndReason::from(3), EndReason::Quit);
    assert_eq!(EndReason::from(4), EndReason::Failed);
    assert_eq!(EndReason::from(5), EndReason::Other);
}

#[test]
fn observed_properties_translate_to_typed_events() {
    assert_eq!(
        translate(MpvEvent::Property("time-pos".into(), PropertyValue::Number(12_500))),
        PlayerEvent::Position(12_500)
    );
    assert_eq!(
        translate(MpvEvent::Property("pause".into(), PropertyValue::Flag(true))),
        PlayerEvent::Paused(true)
    );
    // A property we observe arriving in an unexpected format must not be
    // read as a position of zero.
    assert_eq!(
        translate(MpvEvent::Property("time-pos".into(), PropertyValue::Whole(3))),
        PlayerEvent::Other
    );
}

#[test]
fn plain_events_keep_their_meaning() {
    assert_eq!(translate(MpvEvent::Shutdown), PlayerEvent::Shutdown);
    assert_eq!(translate(MpvEvent::StartFile), PlayerEvent::StartFile);
    assert_eq!(translate(MpvEvent::FileLoaded), PlayerEvent::FileLoaded);
    assert_eq!(translate(MpvEvent::Seek), PlayerEvent::Seek);
    assert_eq!(translate(MpvEvent::PlaybackRestart), PlayerEvent::PlaybackRestart);
    assert_eq!(
        translate(MpvEvent::EndFile(EndReason::Failed)),
        PlayerEvent::EndFile(EndReason::Failed)
    );
    assert_eq!(translate(MpvEvent::Other), PlayerEvent::Other);
    assert_eq!(
        translate(MpvEvent::Property("volume".into(), PropertyValue::Number(50_000))),
        PlayerEvent::Volume(50_000)
    );
    assert_eq!(
        translate(MpvEvent::Property("mute".into(), PropertyValue::Flag(false))),
        PlayerEvent::Muted(false)
    );
    assert_eq!(
        translate(MpvEvent::Property("duration".into(), PropertyValue::Number(9))),
        PlayerEvent::Duration(9)
    );
}

#[test]
fn what_is_observed_is_what_is_translated() {
    for (name, format) in observed_properties() {
        let value = match format {
            PropertyFormat::Number => PropertyValue::Number(1),
            PropertyFormat::Flag => PropertyValue::Flag(true),
        };
        assert_ne!(
            translate(MpvEvent::Property(name.into(), value)),
            PlayerEvent::Other,
            "{name}"
        );
    }
}

#[test]
fn a_volume_stays_inside_what_the_player_offers() {
    assert_eq!(clamp_volume(-1), 0);
    assert_eq!(clamp_volume(42_000), 42_000);
    assert_eq!(clamp_volume(900_000), MAX_VOLUME);
}

#[test]
fn a_size_needs_both_of_its_sides() {
    assert_eq!(video_size(Some(1920), Some(1080)), Some((1920, 1080)));
    assert_eq!(video_size(None, Some(1080)), None);
    assert_eq!(video_size(Some(0), Some(1080)), None);
}

fn option<'a>(options: &'a [(String, Setting)], name: &str) -> Option<&'a Setting> {
    options.iter().rev().find(|(key, _)| key == name).map(|(_, value)| value)
}

#[test]
fn the_defaults_are_set_before_the_player_starts() {
    let config = PlayerConfig::default();
    let options = initial_options(&config);
    assert_eq!(option(&options, "volume"), Some(&Setting::Number(MAX_VOLUME)));
    assert_eq!(option(&options, "mute"), Some(&Setting::Flag(false)));
    assert_eq!(option(&options, "sid"), None);
    assert_eq!(option(&options, "pause"), None);

    let config = PlayerConfig {
        video: VideoOutput::Embedded,
        start_paused: true,
        volume: 900_000,
        audio_language: Some("jpn".into()),
        subtitles: false,
        options: vec![("volume".into(), "3".into())],
        ..PlayerConfig::default()
    };
    let options = initial_options(&config);
    assert_eq!(option(&options, "vo"), Some(&Setting::Text("libmpv".into())));
    assert_eq!(option(&options, "pause"), Some(&Setting::Flag(true)));
    assert_eq!(option(&options, "alang"), Some(&Setting::Text("jpn".into())));
    assert_eq!(option(&options, "sid"), Some(&Setting::Text("no".into())));
    // What the caller asks for comes last and wins.
    assert_eq!(option(&options, "volume"), Some(&Setting::Text("3".into())));
}

#[test]
fn a_loader_looks_in_the_library_of_its_display_first() {
    let wayland = gl_candidates(true);
    let other = gl_candidates(false);
    assert!(!wayland.is_empty() && !other.is_empty());
    assert_ne!(wayland, other);
}

#[test]
fn of_two_own_options_the_last_one_holds() {
    let config = PlayerConfig {
        audio_language: Some("jpn".into()),
        options: vec![
            ("alang".into(), "eng".into()),
            ("vo".into(), "null".into()),
            ("alang".into(), "deu".into()),
        ],
        ..PlayerConfig::default()
    };
    let options = initial_options(&config);
    assert_eq!(option(&options, "alang"), Some(&Setting::Text("deu".into())));
    assert_eq!(option(&options, "vo"), Some(&Setting::Text("null".into())));
}

#[test]
fn a_copy_of_a_config_sets_the_same_options() {
    let config = PlayerConfig {
        subtitle_language: Some("eng".into()),
        muted: true,
        options: vec![("vo".into(), "null".into())],
        ..PlayerConfig::default()
    };
    assert_eq!(config.clone(), config);
    assert_eq!(initial_options(&config.clone()), initial_options(&config));
}

#[test]
fn a_copy_of_an_event_is_the_same_event() {
    let chapter = Chapter {
        index: 1,
        title: Some("OP".into()),
        start: 90_000,
    };
    let track = Track {
        id: 2,
        kind: TrackKind::Audio,
        title: None,
        language: Some("jpn".into()),
        codec: Some("flac".into()),
        selected: true,
        default: false,
        external: false,
    };
    for event in [
        PlayerEvent::Shutdown,
        PlayerEvent::EndFile(EndReason::Eof),
        PlayerEvent::Position(12_500),
        PlayerEvent::Muted(true),
        PlayerEvent::Tracks(vec![track]),
        PlayerEvent::Chapters(vec![chapter]),
        PlayerEvent::Other,
    ] {
        assert_eq!(event.clone(), event);
    }
}
