use proton_stream::tracks::{
    language_name, language_property, read_track, selection, RawTrack, Track, TrackKind,
};


fn track(kind: TrackKind, id: i64) -> Track {
    Track {
        id,
        kind,
        title: None,
        language: None,
        codec: None,
        selected: false,
        default: false,
        external: false,
    }
}

#[test]
fn a_track_with_nothing_but_an_id_still_has_a_distinct_label() {
    // Two nameless audio tracks are a real container; a menu of two
    // identical entries is not a choice.
    assert_eq!(track(TrackKind::Audio, 1).label(), "Audio 1");
    assert_eq!(track(TrackKind::Audio, 2).label(), "Audio 2");
}

#[test]
fn a_labelled_track_reads_language_first_then_what_distinguishes_it() {
    let mut sub = track(TrackKind::Subtitle, 2);
    sub.language = Some("eng".into());
    sub.title = Some("Signs & Songs".into());
    sub.codec = Some("ass".into());
    assert_eq!(sub.label(), "English — Signs & Songs [ass]");
}

#[test]
fn language_tags_resolve_in_both_iso_forms_and_keep_their_region() {
    assert_eq!(language_name("jpn"), "Japanese");
    assert_eq!(language_name("ja"), "Japanese");
    assert_eq!(language_name("pt-BR"), "Portuguese (BR)");
    // An unknown tag is shown as it stands rather than as "Unknown", which
    // would make two of them indistinguishable.
    assert_eq!(language_name("mis"), "mis");
}

#[test]
fn only_the_kinds_the_player_can_select_are_tracks() {
    assert_eq!(TrackKind::from_mpv("audio"), Some(TrackKind::Audio));
    assert_eq!(TrackKind::from_mpv("sub"), Some(TrackKind::Subtitle));
    // The secondary subtitle slot is a separate property this player does
    // not drive; treating it as a subtitle track would put an entry in the
    // menu that `sid` cannot select.
    assert_eq!(TrackKind::from_mpv("sub2"), None);
}

#[test]
fn a_track_without_a_kind_or_an_id_is_none() {
    let raw = |kind: Option<&str>, id: Option<i64>| RawTrack {
        kind: kind.map(|k| k.to_string()),
        id,
        title: Some(" ".into()),
        language: Some("jpn".into()),
        codec: None,
        selected: true,
        default: false,
        external: false,
    };
    assert!(read_track(raw(None, Some(1))).is_none());
    assert!(read_track(raw(Some("audio"), None)).is_none());
    assert!(read_track(raw(Some("sub2"), Some(1))).is_none());
    let track = read_track(raw(Some("audio"), Some(2))).expect("a track");
    assert_eq!(track.kind, TrackKind::Audio);
    assert_eq!(track.id, 2);
    assert_eq!(track.language.as_deref(), Some("jpn"));
    assert!(track.selected);
}

#[test]
fn turning_a_track_off_selects_no() {
    assert_eq!(selection(Some(3)), "3");
    assert_eq!(selection(None), "no");
    assert_eq!(TrackKind::Audio.property(), "aid");
    assert_eq!(TrackKind::Subtitle.property(), "sid");
    assert_eq!(language_property(TrackKind::Audio), Some("alang"));
    assert_eq!(language_property(TrackKind::Subtitle), Some("slang"));
    assert_eq!(language_property(TrackKind::Video), None);
}
