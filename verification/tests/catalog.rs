use proton_stream::catalog::{
    offline_from, Catalog, CatalogNode, OfflineFile, OfflineRow, TitleTrackPrefs, WatchState,
};
use proton_stream::core_error::Error;
use proton_stream::library::TitleKind;
use proton_stream::metadata::{EpisodeMetadata, MetadataRecord, ProviderId, TitleMetadata};
use proton_stream::metadata_rows::{
    kind_name, parse_kind, read_lines, EpisodeRow, MetadataRow,
};
use proton_stream::naming::parse;
use proton_stream::schema::{migrate, MIGRATION_V3, SCHEMA_VERSION};
use proton_stream::table::{FileKey, TitleKey};

fn file(share: &str, link: &str, name: &str) -> CatalogNode {
    CatalogNode {
        share_id: share.into(),
        link_id: link.into(),
        volume_id: "vol".into(),
        parent_link_id: Some("root".into()),
        name: name.into(),
        is_folder: false,
        media_type: Some("video/x-matroska".into()),
        size: Some(1 << 30),
        active_revision_id: Some("rev-1".into()),
        parsed: parse(name),
    }
}

fn found() -> TitleMetadata {
    TitleMetadata {
        provider: ProviderId::AniList,
        remote_id: "16498".into(),
        name: "Attack on Titan".into(),
        original_name: Some("進撃の巨人".into()),
        overview: Some("Several hundred years ago…".into()),
        year: Some(2013),
        kind: TitleKind::Series,
        poster_url: Some("https://example.invalid/p.jpg".into()),
        backdrop_url: None,
        rating: Some(8_400),
        genres: vec!["Action".into(), "Drama".into()],
        episodes: Some(25),
        url: Some("https://anilist.co/anime/16498".into()),
    }
}

#[test]
fn metadata_round_trips_through_the_catalog() {
    let mut catalog = Catalog::in_memory();
    let record = MetadataRecord {
        title_key: "attack on titan".into(),
        provider: ProviderId::AniList,
        metadata: Some(found()),
        fetched_at: 1_700_000_000,
        manual: false,
    };

    catalog.set_metadata(&record);
    assert_eq!(
        catalog.metadata("attack on titan"),
        Some(record.clone())
    );
    assert_eq!(catalog.all_metadata().len(), 1);

    // Second write is an update, not a duplicate row.
    catalog.set_metadata(&record);
    assert_eq!(catalog.all_metadata().len(), 1);
}

/// A hand-picked match has to read back as hand-picked, or the next match
/// run overwrites the one thing the viewer corrected themselves.
#[test]
fn a_hand_picked_match_says_so_when_it_is_read_back() {
    let mut catalog = Catalog::in_memory();
    let record = MetadataRecord {
        title_key: "fate stay night heavens feel".into(),
        provider: ProviderId::AniList,
        metadata: Some(found()),
        fetched_at: 1_700_000_000,
        manual: true,
    };
    catalog.set_metadata(&record);

    let read = catalog.metadata(&record.title_key);
    assert_eq!(read.as_ref().map(|read| read.manual), Some(true));
    assert_eq!(read, Some(record.clone()));

    // And an automatic write over the top says so in turn: the flag is the
    // row's, not the title's.
    catalog.set_metadata(&MetadataRecord {
            manual: false,
            ..record.clone()
        });
    assert_eq!(
        catalog.metadata(&record.title_key)
            .map(|read| read.manual),
        Some(false)
    );
}

/// Forgetting is not the same as storing a miss: it must leave no row at
/// all, so the next match run treats the title as one it never asked about.
#[test]
fn forgetting_a_title_leaves_neither_its_match_nor_its_episodes() {
    let mut catalog = Catalog::in_memory();
    catalog.set_metadata(&MetadataRecord {
            title_key: "attack on titan".into(),
            provider: ProviderId::AniList,
            metadata: Some(found()),
            fetched_at: 1,
            manual: true,
        });
    catalog.set_episode_metadata(
            "attack on titan",
            ProviderId::AniList,
            1,
            &[EpisodeMetadata {
                season: None,
                number: 1,
                name: Some("To You, in 2000 Years".into()),
                overview: None,
                still_url: None,
                air_date: None,
            }],
        ).expect("store episodes");

    catalog.forget_metadata("attack on titan");
    assert!(catalog.metadata("attack on titan").is_none());
    assert!(catalog.all_episode_metadata().is_empty());
}

/// The negative answer is the one that has to survive a round trip: without
/// it every render re-asks about every unmatched title.
#[test]
fn a_stored_miss_reads_back_as_a_miss_and_not_as_absence() {
    let mut catalog = Catalog::in_memory();
    let record = MetadataRecord {
        title_key: "something obscure".into(),
        provider: ProviderId::AniList,
        metadata: None,
        fetched_at: 1_700_000_000,
        manual: false,
    };
    catalog.set_metadata(&record);

    let read = catalog.metadata("something obscure");
    assert_eq!(read, Some(record));
    assert!(
        catalog.metadata("never asked about")
            .is_none()
    );
}

/// A row written by a build that knows a provider this one does not must
/// read as "unmatched", never as a failure that takes the whole grid down.
#[test]
fn a_row_from_an_unknown_provider_is_skipped_rather_than_fatal() {
    let row = MetadataRow {
        provider: "letterboxd".into(),
        matched: true,
        fetched_at: 1,
        remote_id: None,
        name: Some("Something".into()),
        original_name: None,
        overview: None,
        year: None,
        kind: None,
        poster_url: None,
        backdrop_url: None,
        rating: None,
        genres: None,
        episodes: None,
        url: None,
        manual: false,
    };
    let catalog = Catalog::restore(
        Vec::new(),
        Vec::new(),
        Vec::new(),
        Vec::new(),
        vec![(TitleKey { key: "x".into() }, row)],
        Vec::new(),
    )
    .expect("restore");

    assert!(catalog.all_metadata().is_empty());
    assert!(catalog.metadata("x").is_none());
}

/// Metadata is about titles, not shares — a recrawl replaces node rows and
/// must leave the answers alone, exactly as it does watch state.
#[test]
fn replacing_a_share_does_not_drop_stored_metadata() {
    let mut catalog = Catalog::in_memory();
    catalog.set_metadata(&MetadataRecord {
            title_key: "attack on titan".into(),
            provider: ProviderId::AniList,
            metadata: Some(found()),
            fetched_at: 1,
            manual: false,
        });

    catalog.replace_share(
            "share-a",
            &[file("share-a", "l1", "Attack on Titan S01E01.mkv")],
        ).expect("replace");

    assert_eq!(catalog.all_metadata().len(), 1);
    catalog.clear_metadata();
    assert!(catalog.all_metadata().is_empty());
}

#[test]
fn episode_answers_round_trip_and_replace_rather_than_accumulate() {
    let mut catalog = Catalog::in_memory();
    let episodes = vec![
        EpisodeMetadata {
            season: None,
            number: 57,
            name: Some("The Immortal Legion".into()),
            overview: Some("Ed and Al…".into()),
            still_url: None,
            air_date: Some("2010-11-14".into()),
        },
        EpisodeMetadata {
            season: Some(1),
            number: 1,
            name: Some("Fullmetal Alchemist".into()),
            overview: None,
            still_url: Some("still.jpg".into()),
            air_date: None,
        },
    ];
    catalog.set_episode_metadata("fma", ProviderId::AniList, 100, &episodes).expect("store");

    let stored = catalog.all_episode_metadata();
    assert_eq!(stored[0].0.key, "fma");
    let guide = &stored[0].1;
    assert_eq!(guide.len(), 2);
    assert_eq!(
        guide.get(None, 57).and_then(|e| e.name.clone()),
        Some("The Immortal Legion".to_string())
    );
    // The absolute/season distinction has to survive the round trip, or an
    // absolutely-numbered file stops matching after a restart.
    assert_eq!(guide.get(None, 57).map(|e| e.season), Some(None));
    assert_eq!(guide.get(Some(1), 1).map(|e| e.season), Some(Some(1)));

    // A shorter list replaces rather than merges: an episode the provider
    // has dropped must not linger.
    catalog.set_episode_metadata("fma", ProviderId::AniList, 200, &episodes[..1]).expect("store again");
    let stored = catalog.all_episode_metadata();
    assert_eq!(stored.len(), 1);
    assert_eq!(stored[0].1.len(), 1);

    let ages = catalog.episode_metadata_ages();
    assert_eq!(ages.len(), 1);
    assert_eq!(ages[0].0.key, "fma");
    assert_eq!(ages[0].1, (ProviderId::AniList, 200));
}

#[test]
fn clearing_metadata_takes_the_episode_answers_with_it() {
    let mut catalog = Catalog::in_memory();
    catalog.set_episode_metadata(
            "fma",
            ProviderId::AniList,
            100,
            &[EpisodeMetadata {
                season: None,
                number: 1,
                name: Some("Fullmetal Alchemist".into()),
                overview: None,
                still_url: None,
                air_date: None,
            }],
        ).expect("store");
    catalog.clear_metadata();
    assert!(catalog.all_episode_metadata().is_empty());
}

#[test]
fn a_fresh_catalog_is_at_the_current_schema_version() {
    let steps = migrate(0).expect("a fresh database can be brought up to date");
    let versions: Vec<i64> = steps.iter().map(|step| step.version).collect();
    assert_eq!(versions, vec![1, 2, 3, 4, 5, 6, 7]);
    assert_eq!(versions.last(), Some(&SCHEMA_VERSION));
}

/// A newer schema is refused, not downgraded — reinterpreting it would
/// silently mangle whatever the newer build recorded.
#[test]
fn a_newer_schema_refuses_to_open() {
    let error = match migrate(SCHEMA_VERSION + 1) {
        Err(error) => error,
        Ok(_) => panic!("a newer schema must refuse to open"),
    };
    assert!(
        error.message().contains("newer than this build supports"),
        "says why: {}",
        error.message()
    );
}

#[test]
fn nodes_round_trip_through_a_share_replace() {
    let mut catalog = Catalog::in_memory();
    let nodes = vec![
        file("s1", "a", "Show.Name.S01E01.1080p.mkv"),
        file("s1", "b", "Show.Name.S01E02.1080p.mkv"),
    ];
    catalog.replace_share("s1", &nodes).expect("replace");

    let read = catalog.files("s1");
    assert_eq!(read.len(), 2);
    assert_eq!(read[0].parsed.title, "Show Name");
    assert_eq!(read[0].parsed.episode, Some(1));
    assert_eq!(read[1].parsed.episode, Some(2));
}

/// A recrawl replaces the share's rows wholesale, so files deleted upstream
/// disappear rather than lingering as unplayable ghosts.
#[test]
fn replacing_a_share_drops_rows_that_are_no_longer_there() {
    let mut catalog = Catalog::in_memory();
    catalog.replace_share(
            "s1",
            &[
                file("s1", "a", "One.S01E01.mkv"),
                file("s1", "b", "One.S01E02.mkv"),
            ],
        ).expect("first crawl");
    catalog.replace_share("s1", &[file("s1", "a", "One.S01E01.mkv")]).expect("second crawl");

    let read = catalog.files("s1");
    assert_eq!(read.len(), 1);
    assert_eq!(read[0].link_id, "a");
}

/// One share's crawl must not touch another's rows.
#[test]
fn replacing_one_share_leaves_the_others_alone() {
    let mut catalog = Catalog::in_memory();
    catalog.replace_share("s1", &[file("s1", "a", "One.S01E01.mkv")]).expect("s1");
    catalog.replace_share("s2", &[file("s2", "c", "Two.S01E01.mkv")]).expect("s2");
    catalog.replace_share("s1", &[]).expect("s1 emptied");

    assert!(catalog.files("s1").is_empty());
    assert_eq!(catalog.files("s2").len(), 1);
}

/// **The one thing here that is not rebuildable.** A recrawl must not lose
/// where you were in an episode.
#[test]
fn a_recrawl_preserves_watch_state() {
    let mut catalog = Catalog::in_memory();
    catalog.replace_share("s1", &[file("s1", "a", "One.S01E01.mkv")]).expect("crawl");

    let state = WatchState {
        position_ms: 942_500,
        duration_ms: Some(1_440_000),
        watched: false,
        updated_at: 1_700_000_000,
    };
    catalog.set_watch_state("s1", "a", &state);

    catalog.replace_share("s1", &[file("s1", "a", "One.S01E01.mkv")]).expect("recrawl");

    assert_eq!(
        catalog.watch_state("s1", "a"),
        Some(state),
        "the recrawl must not have cleared the resume position"
    );
}

/// Resuming overwrites rather than accumulating rows.
#[test]
fn watch_state_updates_in_place() {
    let mut catalog = Catalog::in_memory();
    for position in [10_000, 200_000, 3_000_000] {
        catalog.set_watch_state(
                "s1",
                "a",
                &WatchState {
                    position_ms: position,
                    duration_ms: Some(3_600_000),
                    watched: false,
                    updated_at: 1,
                },
            );
    }
    let state = catalog.watch_state("s1", "a").expect("some");
    assert_eq!(state.position_ms, 3_000_000);
}

#[test]
fn an_unwatched_file_has_no_watch_state() {
    let mut catalog = Catalog::in_memory();
    assert_eq!(
        catalog.watch_state("s1", "never-played"),
        None
    );
}

#[test]
fn removing_an_offline_record_keeps_the_online_catalog_and_other_downloads() {
    let mut catalog = Catalog::in_memory();
    let first = OfflineFile {
        revision_id: "revision-1".to_owned(),
        block_sizes: vec![3, 5],
    };
    let second = OfflineFile {
        revision_id: "revision-2".to_owned(),
        block_sizes: vec![7],
    };
    catalog.set_offline_file("share", "first", &first).expect("record first");
    catalog.set_offline_file("share", "second", &second).expect("record second");

    catalog.remove_offline_file("share", "first");

    assert_eq!(
        catalog.offline_file("share", "first").expect("read first"),
        None
    );
    assert_eq!(
        catalog.offline_file("share", "second").expect("read second"),
        Some(second)
    );
}

#[test]
fn recrawl_retains_stale_offline_index_until_bytes_can_be_removed() {
    let mut catalog = Catalog::in_memory();
    let mut old = file("share", "episode", "Show.S01E01.mkv");
    old.active_revision_id = Some("old".to_owned());
    catalog.replace_share("share", &[old]).expect("first crawl");
    let offline = OfflineFile {
        revision_id: "old".to_owned(),
        block_sizes: vec![4, 7],
    };
    catalog.set_offline_file("share", "episode", &offline).expect("record offline revision");

    let mut new = file("share", "episode", "Show.S01E01.mkv");
    new.active_revision_id = Some("new".to_owned());
    catalog.replace_share_retaining_offline("share", &[new]).expect("recrawl");

    assert_eq!(
        catalog.offline_file("share", "episode").expect("read retained path key"),
        Some(offline),
        "filesystem owner must delete old bytes before dropping this path key"
    );
}

#[test]
fn ordinary_recrawl_prunes_stale_offline_index_for_legacy_callers() {
    let mut catalog = Catalog::in_memory();
    let mut old = file("share", "episode", "Show.S01E01.mkv");
    old.active_revision_id = Some("old".to_owned());
    catalog.replace_share("share", &[old]).expect("first crawl");
    catalog.set_offline_file(
            "share",
            "episode",
            &OfflineFile {
                revision_id: "old".to_owned(),
                block_sizes: vec![4],
            },
        ).expect("offline row");
    let mut new = file("share", "episode", "Show.S01E01.mkv");
    new.active_revision_id = Some("new".to_owned());
    catalog.replace_share("share", &[new]).expect("recrawl");
    assert_eq!(
        catalog.offline_file("share", "episode").expect("read offline row"),
        None
    );
}

#[test]
fn an_older_schema_takes_only_the_steps_it_lacks() {
    let steps = migrate(2).expect("an older schema");
    assert_eq!(steps.len(), 5);
    assert_eq!(steps[0].version, 3);
    assert_eq!(steps[0].sql, MIGRATION_V3);
    assert!(migrate(SCHEMA_VERSION).expect("this schema").is_empty());
    assert_eq!(
        migrate(9).unwrap_err(),
        Error::Config(
            "catalog schema is version 9, newer than this build supports (7); \
             upgrade proton-stream or delete the catalog"
                .into()
        )
    );
}

/// Brought up to date in a real database, every table is there and the version
/// is recorded.
#[test]
fn the_migrations_apply_to_a_database() {
    let database = rusqlite::Connection::open_in_memory().expect("open");
    for step in migrate(0).expect("steps") {
        database.execute_batch(step.sql).expect("apply");
        database
            .pragma_update(None, "user_version", step.version)
            .expect("record");
    }
    let tables: i64 = database
        .query_row("SELECT COUNT(*) FROM sqlite_master WHERE type = 'table'", [], |row| row.get(0))
        .expect("count");
    assert_eq!(tables, 6);
}

#[test]
fn files_are_listed_in_display_order_without_folders() {
    let mut catalog = Catalog::in_memory();
    let mut folder = file("s", "f", "Season 01");
    folder.is_folder = true;
    let mut film = file("s", "z", "A.Film.mkv");
    film.parsed.title = "B".into();
    film.parsed.season = None;
    film.parsed.episode = None;
    let mut late = file("s", "b", "B.S01E02.mkv");
    late.parsed.title = "B".into();
    let mut early = file("t", "a", "B.S01E01.mkv");
    early.parsed.title = "B".into();
    catalog.replace_share("s", &[late, folder, film]).expect("crawl");
    catalog.replace_share("t", &[early]).expect("crawl");

    let all: Vec<String> = catalog.all_files().into_iter().map(|n| n.link_id).collect();
    // No season sorts before the first one.
    assert_eq!(all, vec!["z", "a", "b"]);
    let one: Vec<String> = catalog.files("s").into_iter().map(|n| n.link_id).collect();
    assert_eq!(one, vec!["z", "b"]);
}

#[test]
fn nodes_that_clash_leave_the_previous_catalog_whole() {
    let mut catalog = Catalog::in_memory();
    catalog
        .replace_share("s", &[file("s", "a", "One.S01E01.mkv")])
        .expect("crawl");
    let clash = catalog.replace_share(
        "s",
        &[file("s", "b", "Two.S01E01.mkv"), file("s", "b", "Two.S01E02.mkv")],
    );
    assert_eq!(
        clash,
        Err(Error::Db(
            "UNIQUE constraint failed: nodes.share_id, nodes.link_id".into()
        ))
    );
    assert_eq!(catalog.files("s").len(), 1);
    assert_eq!(catalog.files("s")[0].link_id, "a");
}

#[test]
fn a_removed_share_takes_its_watch_positions_and_files_with_it() {
    let mut catalog = Catalog::in_memory();
    let state = WatchState {
        position_ms: 1,
        duration_ms: None,
        watched: false,
        updated_at: 1,
    };
    let kept = OfflineFile {
        revision_id: "r".into(),
        block_sizes: vec![1],
    };
    for share in ["s", "t"] {
        catalog
            .replace_share(share, &[file(share, "a", "One.S01E01.mkv")])
            .expect("crawl");
        catalog.set_watch_state(share, "a", &state);
        catalog.set_offline_file(share, "a", &kept).expect("keep");
    }
    catalog.remove_share("s");
    assert!(catalog.files("s").is_empty());
    assert_eq!(catalog.watch_state("s", "a"), None);
    assert_eq!(catalog.offline_file("s", "a"), Ok(None));
    assert_eq!(catalog.files("t").len(), 1);
    assert_eq!(catalog.watch_state("t", "a"), Some(state));
    assert_eq!(catalog.all_watch_states().len(), 1);
    assert_eq!(catalog.all_offline_files().expect("read").len(), 1);
    assert!(catalog.offline_files_for_share("s").expect("read").is_empty());
    let rest = catalog.offline_files_for_share("t").expect("read");
    assert_eq!(rest[0].0.link_id, "a");
    assert_eq!(rest[0].1, kept);
}

#[test]
fn block_sizes_read_back_and_unreadable_ones_are_an_error() {
    let mut catalog = Catalog::in_memory();
    let kept = OfflineFile {
        revision_id: "r".into(),
        block_sizes: vec![4194304, 0, 18446744073709551615],
    };
    catalog.set_offline_file("s", "a", &kept).expect("keep");
    assert_eq!(catalog.offline_file("s", "a"), Ok(Some(kept)));

    let restored = |json: &str| {
        let row = OfflineRow {
            revision_id: "r".into(),
            block_sizes: json.into(),
        };
        let key = FileKey {
            share_id: "s".into(),
            link_id: "a".into(),
        };
        Catalog::restore(
            Vec::new(),
            Vec::new(),
            vec![(key, row)],
            Vec::new(),
            Vec::new(),
            Vec::new(),
        )
        .expect("restore")
    };
    let read = restored(" [ 3,\n5 ] ").offline_file("s", "a").expect("read");
    assert_eq!(read.expect("some").block_sizes, vec![3, 5]);
    let broken = restored("[3,");
    match broken.offline_file("s", "a") {
        Err(Error::Db(message)) => {
            let why = serde_json::from_str::<Vec<u64>>("[3,").unwrap_err();
            assert_eq!(message, format!("Conversion error from type Text at index: 1, {why}"))
        }
        other => panic!("{other:?}"),
    }
    assert!(broken.all_offline_files().is_err());
    assert!(broken.offline_files_for_share("s").is_err());
    assert!(broken.offline_files_for_share("t").is_ok());
    let rows = broken.offline_rows("s");
    assert_eq!(rows.len(), 1, "an unreadable row is still a row");
    assert_eq!(rows[0].0.link_id, "a");
    assert!(broken.offline_rows("t").is_empty());
}

#[test]
fn language_choices_belong_to_a_title() {
    let mut catalog = Catalog::in_memory();
    assert_eq!(catalog.title_track_prefs("frieren"), None);
    assert!(TitleTrackPrefs::default().subtitles);
    let prefs = TitleTrackPrefs {
        audio_language: Some("jpn".into()),
        subtitle_language: None,
        subtitles: false,
    };
    catalog.set_title_track_prefs("frieren", &TitleTrackPrefs::default());
    catalog.set_title_track_prefs("frieren", &prefs);
    assert_eq!(catalog.title_track_prefs("frieren"), Some(prefs.clone()));
    let all = catalog.all_title_track_prefs();
    assert_eq!(all.len(), 1);
    assert_eq!(all[0].0.key, "frieren");
    assert_eq!(all[0].1, prefs);
}

#[test]
fn episodes_that_clash_change_nothing() {
    let mut catalog = Catalog::in_memory();
    let episode = |number: u32| EpisodeMetadata {
        season: Some(1),
        number,
        name: None,
        overview: None,
        still_url: None,
        air_date: None,
    };
    catalog
        .set_episode_metadata("x", ProviderId::AniList, 1, &[episode(1)])
        .expect("store");
    let clash = catalog.set_episode_metadata("x", ProviderId::Tmdb, 2, &[episode(2), episode(2)]);
    assert!(matches!(clash, Err(Error::Db(_))));
    assert_eq!(catalog.episode_metadata_ages()[0].1, (ProviderId::AniList, 1));
}

#[test]
fn the_age_of_an_episode_list_is_its_oldest_rows() {
    let row = |title: &str, number: i64, provider: &str, fetched_at: i64| EpisodeRow {
        title_key: title.into(),
        season: -1,
        number,
        provider: provider.into(),
        fetched_at,
        name: None,
        overview: None,
        still_url: None,
        air_date: None,
    };
    let catalog = Catalog::restore(
        Vec::new(),
        Vec::new(),
        Vec::new(),
        Vec::new(),
        Vec::new(),
        vec![
            row("a", 1, "tmdb", 30),
            row("b", 1, "letterboxd", 5),
            row("a", 2, "anilist", 20),
        ],
    )
    .expect("restore");
    let ages = catalog.episode_metadata_ages();
    assert_eq!(ages.len(), 1);
    assert_eq!(ages[0].0.key, "a");
    assert_eq!(ages[0].1, (ProviderId::AniList, 20));
    let guides = catalog.all_episode_metadata();
    assert_eq!(guides.len(), 2);
    assert_eq!(guides[0].1.len(), 2);
    assert!(guides[0].1.get(None, 2).is_some());
}

#[test]
fn genres_are_lines() {
    assert_eq!(read_lines("Action\nDrama"), vec!["Action", "Drama"]);
    assert_eq!(read_lines("\nAction\r\n\r\nDrama\r"), vec!["Action", "Drama\r"]);
    assert!(read_lines("").is_empty());
    assert_eq!(parse_kind(Some(kind_name(TitleKind::Series))), TitleKind::Series);
    assert_eq!(parse_kind(Some(kind_name(TitleKind::Film))), TitleKind::Film);
    assert_eq!(parse_kind(Some("opera")), TitleKind::Film);
    assert_eq!(parse_kind(None), TitleKind::Film);
}

#[test]
fn every_error_says_what_failed() {
    let cases = [
        (Error::Drive("x".into()), "x"),
        (Error::Db("x".into()), "catalog database: x"),
        (Error::Keyring("x".into()), "credential store: x"),
        (Error::Config("x".into()), "config: x"),
        (Error::Io("x".into()), "io: x"),
        (Error::NotFound("x".into()), "x"),
    ];
    for (error, message) in cases {
        assert_eq!(error.message(), message);
    }
}

#[test]
fn sizes_that_did_not_decode_are_an_error_with_the_column_and_the_reason() {
    assert_eq!(
        offline_from("r", Err("trailing comma".into()), 3),
        Err(Error::Db(
            "Conversion error from type Text at index: 3, trailing comma".into()
        ))
    );
    let file = offline_from("r", Ok(vec![3, 5]), 3).expect("a file");
    assert_eq!(file.revision_id, "r");
    assert_eq!(file.block_sizes, vec![3, 5]);
}

#[test]
fn a_crawl_without_repeated_links_is_always_taken() {
    let mut catalog = Catalog::in_memory();
    let crawl = [file("s", "a", "A.mkv"), file("s", "b", "B.mkv")];
    catalog.replace_share("s", &crawl).expect("a first crawl");
    catalog.replace_share("t", &[file("t", "a", "A.mkv")]).expect("another share");
    catalog.replace_share("s", &crawl).expect("the same crawl again");
    assert_eq!(catalog.all_files().len(), 3);
    let twice = [file("s", "a", "A.mkv"), file("s", "a", "B.mkv")];
    assert!(catalog.replace_share("s", &twice).is_err());
    assert_eq!(catalog.files("s").len(), 2, "the previous catalog stays whole");
    catalog.replace_share("s", &[]).expect("a crawl that found nothing");
    assert_eq!(catalog.files("s").len(), 0);
    assert_eq!(catalog.files("t").len(), 1);
}
