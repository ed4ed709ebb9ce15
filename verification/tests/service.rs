use proton_stream::catalog::{CatalogNode, WatchEntry};
use proton_stream::library::{Library, TitleKind};
use proton_stream::matching::Candidate;
use proton_stream::meta_error::{graphql_error, refusal, Error};
use proton_stream::metadata::{
    EpisodeMetadata, MetadataConfig, MetadataRecord, ProviderId, TitleMetadata,
};
use proton_stream::naming::ParsedName;
use proton_stream::service::{
    hand_query, is_usable, ordinal, query_for, season_names, MetadataService, SeasonEvent,
    SeasonStep,
};

fn config(provider: ProviderId) -> MetadataConfig {
    MetadataConfig {
        enabled: true,
        provider,
        ..MetadataConfig::default()
    }
}

#[test]
fn anilist_needs_no_api_key_and_tmdb_does() {
    let anilist = config(ProviderId::AniList);
    assert!(MetadataService::new(&anilist, None).is_ok());

    let tmdb = config(ProviderId::Tmdb);
    assert!(matches!(
        MetadataService::new(&tmdb, None),
        Err(Error::MissingApiKey(ProviderId::Tmdb))
    ));
    assert!(MetadataService::new(&tmdb, Some("key".into())).is_ok());
}

#[test]
fn a_season_is_searched_for_the_way_the_provider_names_it() {
    assert_eq!(
        season_names("Oshi no Ko", 2),
        vec!["Oshi no Ko 2nd Season", "Oshi no Ko Season 2"]
    );
    assert_eq!(ordinal(1), "1st");
    assert_eq!(ordinal(3), "3rd");
    assert_eq!(ordinal(4), "4th");
    assert_eq!(ordinal(11), "11th");
    assert_eq!(ordinal(12), "12th");
    assert_eq!(ordinal(13), "13th");
    assert_eq!(ordinal(21), "21st");
}

#[test]
fn a_stored_answer_is_only_usable_for_the_provider_that_gave_it() {
    let now = 1_700_000_000;
    let record = MetadataRecord {
        title_key: "cowboy bebop".into(),
        provider: ProviderId::AniList,
        metadata: None,
        fetched_at: now,
        manual: false,
    };
    assert!(is_usable(Some(&record), ProviderId::AniList, now));
    assert!(!is_usable(Some(&record), ProviderId::Tmdb, now));
    assert!(!is_usable(None, ProviderId::AniList, now));
}

fn node(link: &str, title: &str, season: Option<u32>, episode: Option<u32>) -> CatalogNode {
    CatalogNode {
        share_id: "s".into(),
        link_id: link.into(),
        volume_id: "v".into(),
        parent_link_id: None,
        name: format!("{link}.mkv"),
        is_folder: false,
        media_type: None,
        size: None,
        active_revision_id: None,
        parsed: ParsedName {
            title: title.into(),
            season,
            episode,
            year: None,
            episode_title: None,
        },
    }
}

fn library(nodes: Vec<CatalogNode>) -> Library {
    let watch: Vec<WatchEntry> = Vec::new();
    Library::build(nodes, &watch)
}

fn candidate(name: &str) -> Candidate {
    Candidate {
        metadata: TitleMetadata {
            provider: ProviderId::AniList,
            remote_id: "1".into(),
            name: name.into(),
            original_name: None,
            overview: None,
            year: None,
            kind: TitleKind::Series,
            poster_url: None,
            backdrop_url: None,
            rating: None,
            genres: Vec::new(),
            episodes: None,
            url: None,
        },
        aliases: vec![name.into()],
        kind_known: true,
    }
}

#[test]
fn a_miss_is_stored_and_a_failure_is_not() {
    let service = MetadataService::new(&config(ProviderId::AniList), None).unwrap();
    let library = library(vec![node("a", "Cowboy Bebop", Some(1), Some(1))]);
    let title = &library.titles[0];

    let found = service.record(title, Ok(vec![candidate("Cowboy Bebop")]), 7).unwrap();
    assert_eq!(found.title_key, "cowboy bebop");
    assert_eq!(found.fetched_at, 7);
    assert!(!found.manual);
    assert_eq!(found.metadata.unwrap().name, "Cowboy Bebop");

    let miss = service.record(title, Ok(vec![candidate("Akira")]), 8).unwrap();
    assert_eq!(miss.metadata, None);
    assert_eq!(miss.provider, ProviderId::AniList);

    assert_eq!(
        service.record(title, Err(Error::RateLimited), 9),
        Err(Error::RateLimited)
    );
}

#[test]
fn a_kind_that_came_from_counting_files_is_a_guess() {
    let numbered = library(vec![node("a", "Show", Some(1), Some(1))]);
    assert!(query_for(&numbered.titles[0]).kind_known);

    let films = library(vec![
        node("a", "Heavens Feel", None, None),
        node("b", "Heavens Feel", None, None),
    ]);
    let query = query_for(&films.titles[0]);
    assert_eq!(query.name, "Heavens Feel");
    assert!(!query.kind_known);
}

#[test]
fn a_hand_search_is_trimmed_and_a_blank_one_asks_nothing() {
    assert!(hand_query("   ", TitleKind::Film).is_none());
    let query = hand_query("  Akira ", TitleKind::Film).unwrap();
    assert_eq!(query.name, "Akira");
    assert_eq!(query.year, None);
    assert!(!query.kind_known);

    let service = MetadataService::new(&config(ProviderId::AniList), None).unwrap();
    let listed = service.search(vec![candidate("B"), candidate("A")]);
    assert_eq!(listed[0].name, "B");
    assert_eq!(listed[1].name, "A");
}

#[test]
fn an_entry_that_the_viewer_picked_is_marked_as_theirs() {
    let service = MetadataService::new(&config(ProviderId::AniList), None).unwrap();
    let record = service.chosen("akira".into(), candidate("Akira").metadata, 5);
    assert!(record.manual);
    assert_eq!(record.fetched_at, 5);
    assert_eq!(record.metadata.unwrap().name, "Akira");
}

#[test]
fn a_season_is_found_by_its_own_entry_and_filed_under_its_number() {
    let service = MetadataService::new(&config(ProviderId::AniList), None).unwrap();
    let library = library(vec![node("a", "Oshi no Ko", Some(2), Some(1))]);
    let title = &library.titles[0];

    let query = match service.season_step(title, 2, SeasonEvent::Begin) {
        SeasonStep::Search(0, query) => query,
        other => panic!("{other:?}"),
    };
    assert_eq!(query.name, "Oshi no Ko 2nd Season");
    assert_eq!(query.year, None);

    let query = match service.season_step(title, 2, SeasonEvent::Answered(0, Vec::new())) {
        SeasonStep::Search(1, query) => query,
        other => panic!("{other:?}"),
    };
    assert_eq!(query.name, "Oshi no Ko Season 2");

    match service.season_step(
        title,
        2,
        SeasonEvent::Answered(1, vec![candidate("Oshi no Ko Season 2")]),
    ) {
        SeasonStep::List(found) => assert_eq!(found.name, "Oshi no Ko Season 2"),
        other => panic!("{other:?}"),
    }
    match service.season_step(title, 2, SeasonEvent::Answered(1, Vec::new())) {
        SeasonStep::Done(episodes) => assert!(episodes.is_empty()),
        other => panic!("{other:?}"),
    }
    let listed = vec![EpisodeMetadata {
        season: None,
        number: 1,
        name: None,
        overview: None,
        still_url: None,
        air_date: None,
    }];
    match service.season_step(title, 2, SeasonEvent::Listed(listed)) {
        SeasonStep::Done(episodes) => {
            assert_eq!(episodes.len(), 1);
            assert_eq!(episodes[0].season, Some(2));
            assert_eq!(episodes[0].number, 1);
        }
        other => panic!("{other:?}"),
    }

    let tmdb = MetadataService::new(&config(ProviderId::Tmdb), Some("k".into())).unwrap();
    assert!(service.splits_seasons());
    assert!(!tmdb.splits_seasons());
    assert!(matches!(
        tmdb.season_step(title, 2, SeasonEvent::Begin),
        SeasonStep::Done(episodes) if episodes.is_empty()
    ));
}

#[test]
fn a_refusal_is_named_where_the_caller_has_to_act_on_it() {
    assert_eq!(refusal(ProviderId::AniList, 429, "429 Too Many Requests"), Error::RateLimited);
    assert_eq!(
        refusal(ProviderId::AniList, 401, "401 Unauthorized"),
        Error::Http("AniList answered 401 Unauthorized".into())
    );
    assert_eq!(
        refusal(ProviderId::Tmdb, 401, "401 Unauthorized"),
        Error::MissingApiKey(ProviderId::Tmdb)
    );
    assert_eq!(
        refusal(ProviderId::Tmdb, 500, "500 Internal Server Error").message(),
        "TMDB answered 500 Internal Server Error"
    );
    assert_eq!(graphql_error(&[]), None);
    assert_eq!(
        graphql_error(&["one".to_string(), "two".to_string()]),
        Some(Error::Http("AniList: one; two".into()))
    );
}

#[test]
fn every_lookup_error_says_what_it_is() {
    assert_eq!(Error::Network("timed out".into()).message(), "network: timed out");
    assert_eq!(
        Error::RateLimited.message(),
        "the provider is rate-limiting; try again shortly"
    );
    assert_eq!(
        Error::MissingApiKey(ProviderId::Tmdb).message(),
        "TMDB needs an API key"
    );
    assert_eq!(Error::Disabled.message(), "metadata lookups are turned off");
    assert_eq!(Error::Config("x".into()).message(), "config: x");
}

#[test]
fn a_copy_of_a_service_asks_the_same_provider() {
    let config = MetadataConfig {
        provider: ProviderId::Tmdb,
        ..MetadataConfig::default()
    };
    let service = MetadataService::new(&config, Some("key".into())).expect("a service");
    assert_eq!(service.clone(), service);
}
