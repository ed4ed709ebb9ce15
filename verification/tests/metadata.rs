use proton_stream::library::TitleKind;
use proton_stream::metadata::ArtShape;
use proton_stream::metadata::EpisodeGuide;
use proton_stream::metadata::EpisodeMetadata;
use proton_stream::metadata::MetadataConfig;
use proton_stream::metadata::MetadataRecord;
use proton_stream::metadata::ProviderId;
use proton_stream::metadata::TitleMetadata;
use proton_stream::metadata::MISS_TTL_SECS;

fn metadata() -> TitleMetadata {
    TitleMetadata {
        provider: ProviderId::AniList,
        remote_id: "1".into(),
        name: "Cowboy Bebop".into(),
        original_name: None,
        overview: None,
        year: Some(1998),
        kind: TitleKind::Series,
        poster_url: None,
        backdrop_url: None,
        rating: None,
        genres: Vec::new(),
        episodes: Some(26),
        url: None,
    }
}

fn episode(season: Option<u32>, number: u32, name: &str) -> EpisodeMetadata {
    EpisodeMetadata {
        season,
        number,
        name: Some(name.into()),
        overview: None,
        still_url: None,
        air_date: None,
    }
}

#[test]
fn a_file_that_states_its_season_is_answered_from_that_season() {
    let guide = EpisodeGuide::new(vec![
        episode(Some(1), 2, "Stray Dog Strut"),
        episode(Some(2), 2, "Somewhere else entirely"),
    ]);
    assert_eq!(
        guide.get(Some(1), 2).and_then(|e| e.name.clone()),
        Some("Stray Dog Strut".to_string())
    );
    // The fallback to season one must never reach a file that said it was
    // in season two — that would caption every episode with the wrong one.
    assert_eq!(guide.get(Some(3), 2), None);
}

#[test]
fn an_absolutely_numbered_file_finds_an_absolutely_numbered_answer() {
    let guide = EpisodeGuide::new(vec![episode(None, 57, "The Immortal Legion")]);
    assert_eq!(
        guide.get(None, 57).and_then(|e| e.name.clone()),
        Some("The Immortal Legion".to_string())
    );
    // A provider that numbers straight through answers a file that states
    // season *one*: the release split nothing there.
    assert_eq!(guide.get(Some(1), 57).map(|e| e.number), Some(57));
}

/// **What captioned every episode of Oshi no Ko season two with season
/// one's names.** AniList files a sequel as its own entry numbered from
/// one, so its "episode 1" is season one's — and a file that says it is in
/// season two must not be answered with it.
#[test]
fn an_absolutely_numbered_answer_never_reaches_a_later_season() {
    let guide = EpisodeGuide::new(vec![episode(None, 1, "Mother and Children")]);
    assert_eq!(guide.get(Some(2), 1), None);
    assert_eq!(guide.get(Some(3), 1), None);
    // And once the season's own entry has been fetched, it answers.
    let guide = EpisodeGuide::new(vec![
        episode(None, 1, "Mother and Children"),
        episode(Some(2), 1, "The Franchise"),
    ]);
    assert_eq!(
        guide.get(Some(2), 1).and_then(|e| e.name.clone()),
        Some("The Franchise".to_string())
    );
    assert_eq!(
        guide.get(None, 1).and_then(|e| e.name.clone()),
        Some("Mother and Children".to_string())
    );
}

#[test]
fn an_absolutely_numbered_file_falls_back_to_the_only_season_there_is() {
    // TMDB files a 64-episode anime under one season; the release numbers
    // its files `#001`–`#064`. Without this they never meet.
    let guide = EpisodeGuide::new(vec![episode(Some(1), 57, "The Immortal Legion")]);
    assert_eq!(guide.get(None, 57).map(|e| e.number), Some(57));
    assert_eq!(guide.get(None, 99), None);
}

#[test]
fn enrichment_is_off_until_it_is_asked_for() {
    assert!(!MetadataConfig::default().enabled);
}

#[test]
fn provider_names_round_trip_through_the_catalog_column() {
    for provider in ProviderId::ALL {
        assert_eq!(ProviderId::parse(provider.as_str()), Some(provider));
    }
    assert_eq!(ProviderId::parse("letterboxd"), None);
}

/// A backdrop is the tile's shape and wins; a poster still gets used, but
/// says it needs fitting rather than cropping.
#[test]
fn tile_art_prefers_the_landscape_picture() {
    let mut data = metadata();
    data.poster_url = Some("poster".into());
    assert_eq!(data.tile_art(), Some(("poster", ArtShape::Portrait)));

    data.backdrop_url = Some("backdrop".into());
    assert_eq!(data.tile_art(), Some(("backdrop", ArtShape::Landscape)));
}

/// A miss goes stale far sooner than a match: a show the provider had not
/// indexed yet must not stay blank forever.
#[test]
fn a_miss_expires_sooner_than_a_match() {
    let now = 1_000_000_000;
    let miss = MetadataRecord {
        title_key: "k".into(),
        provider: ProviderId::AniList,
        metadata: None,
        fetched_at: now - MISS_TTL_SECS - 1,
        manual: false,
    };
    assert!(!miss.is_fresh(now, ProviderId::AniList));

    let matched = MetadataRecord {
        metadata: Some(metadata()),
        ..miss.clone()
    };
    assert!(matched.is_fresh(now, ProviderId::AniList));
}

/// Switching provider must re-ask rather than trust the other one's answer —
/// especially its silence.
#[test]
fn a_record_from_another_provider_is_never_fresh() {
    let record = MetadataRecord {
        title_key: "k".into(),
        provider: ProviderId::AniList,
        metadata: Some(metadata()),
        fetched_at: 1_000_000_000,
        manual: false,
    };
    assert!(!record.is_fresh(1_000_000_000, ProviderId::Tmdb));
}

#[test]
fn a_match_the_viewer_picked_does_not_age() {
    let picked = MetadataRecord {
        title_key: "cowboy bebop".into(),
        provider: ProviderId::AniList,
        metadata: Some(metadata()),
        fetched_at: 0,
        manual: true,
    };
    assert!(picked.is_fresh(i64::MAX, ProviderId::AniList));
    assert!(!picked.is_fresh(0, ProviderId::Tmdb));
}

#[test]
fn a_copy_of_a_guide_answers_the_same() {
    let guide = EpisodeGuide::new(vec![episode(Some(1), 1, "One"), episode(None, 2, "Two")]);
    let copy = guide.clone();
    assert_eq!(copy, guide);
    assert_eq!(copy.get(Some(1), 1), guide.get(Some(1), 1));
    assert!(EpisodeGuide::default().is_empty());
    let config = MetadataConfig {
        language: "de".into(),
        ..MetadataConfig::default()
    };
    assert_eq!(config.clone(), config);
}
