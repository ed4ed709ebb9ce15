use proton_stream::catalog::{CatalogNode, WatchEntry, WatchState};
use proton_stream::keys::{join_key, sort_name, KeyPart};
use proton_stream::library::{title_key, Library, TitleKind};
use proton_stream::naming::ParsedName;


fn node(
    share: &str,
    link: &str,
    name: &str,
    season: Option<u32>,
    episode: Option<u32>,
) -> CatalogNode {
    CatalogNode {
        share_id: share.into(),
        link_id: link.into(),
        volume_id: "vol".into(),
        parent_link_id: None,
        name: name.into(),
        is_folder: false,
        media_type: Some("video/x-matroska".into()),
        size: Some(1024),
        active_revision_id: Some("rev".into()),
        parsed: ParsedName {
            title: name.split(" - ").next().unwrap_or(name).to_string(),
            season,
            episode,
            year: None,
            episode_title: None,
        },
    }
}

#[test]
fn the_next_episode_is_the_next_one_in_display_order_across_seasons() {
    let library = Library::build(
        vec![
            node("s1", "a", "Show - S01E01.mkv", Some(1), Some(1)),
            node("s1", "b", "Show - S01E02.mkv", Some(1), Some(2)),
            node("s1", "c", "Show - S02E01.mkv", Some(2), Some(1)),
        ],
        &[],
    );
    let title = &library.titles[0];

    assert_eq!(
        title.following("s1", "a").map(|e| e.node.link_id.clone()),
        Some("b".to_string())
    );
    // Autoplay has to walk off the end of a season into the next one, or it
    // stops two thirds of the way through a series for no reason a viewer
    // can see.
    assert_eq!(
        title.following("s1", "b").map(|e| e.node.link_id.clone()),
        Some("c".to_string())
    );
    assert_eq!(title.following("s1", "c"), None);

    assert_eq!(
        title.preceding("s1", "c").map(|e| e.node.link_id.clone()),
        Some("b".to_string())
    );
    assert_eq!(title.preceding("s1", "a"), None);
}

#[test]
fn a_file_from_another_share_is_not_this_titles_neighbour() {
    let library = Library::build(
        vec![
            node("s1", "a", "Show - S01E01.mkv", Some(1), Some(1)),
            node("s1", "b", "Show - S01E02.mkv", Some(1), Some(2)),
        ],
        &[],
    );
    let title = &library.titles[0];
    // Same link id, different share: two shares of the same series really
    // do collide on names, and "next" must not cross over on a false match.
    assert_eq!(title.position_of("other", "a"), None);
    assert_eq!(title.following("other", "a"), None);
}

fn watch(link: &str, position: u64, duration: u64, watched: bool, at: i64) -> WatchEntry {
    WatchEntry {
        share_id: "s".into(),
        link_id: link.into(),
        state: WatchState {
            position_ms: position,
            duration_ms: Some(duration),
            watched,
            updated_at: at,
        },
    }
}

#[test]
fn groups_episodes_into_seasons() {
    let nodes = vec![
        node("s", "1", "Frieren - S01E02", Some(1), Some(2)),
        node("s", "2", "Frieren - S01E01", Some(1), Some(1)),
        node("s", "3", "Frieren - S02E01", Some(2), Some(1)),
    ];
    let library = Library::build(nodes, &[]);

    assert_eq!(library.titles.len(), 1);
    let title = &library.titles[0];
    assert_eq!(title.kind, TitleKind::Series);
    assert_eq!(title.seasons.len(), 2);
    assert_eq!(title.seasons[0].number, Some(1));
    // Sorted by episode number, not by insertion order.
    assert_eq!(title.seasons[0].episodes[0].node.link_id, "2");
    assert_eq!(title.episode_count(), 3);
}

#[test]
fn a_row_detail_never_repeats_the_numbering() {
    let mut file = node("s", "1", "Show - S01E01", Some(1), Some(1));
    file.name = "[Group] Show - 01 (1080p).mkv".into();
    let library = Library::build(vec![file], &[]);
    let episode = &library.titles[0].seasons[0].episodes[0];

    // No episode name in the filename: the row shows the filename, while
    // the card — which has no numbering column — shows the numbering.
    assert_eq!(episode.detail(), "[Group] Show - 01 (1080p).mkv");
    assert_eq!(episode.label(), "S01E01");
}

#[test]
fn a_stated_episode_name_wins_on_both() {
    let mut file = node("s", "1", "Show - S01E01", Some(1), Some(1));
    file.parsed.episode_title = Some("Mother and Children".into());
    let library = Library::build(vec![file], &[]);
    let episode = &library.titles[0].seasons[0].episodes[0];

    assert_eq!(episode.detail(), "Mother and Children");
    assert_eq!(episode.label(), "Mother and Children");
}

#[test]
fn unnumbered_seasons_sort_last() {
    let nodes = vec![
        node("s", "1", "Show - OVA", None, None),
        node("s", "2", "Show - S01E01", Some(1), Some(1)),
    ];
    let library = Library::build(nodes, &[]);
    let seasons = &library.titles[0].seasons;
    assert_eq!(seasons[0].number, Some(1));
    assert_eq!(seasons[1].number, None);
    assert_eq!(seasons[1].label(), "Episodes");
}

#[test]
fn a_lone_unnumbered_file_is_a_film() {
    let nodes = vec![node("s", "1", "Spirited Away", None, None)];
    let library = Library::build(nodes, &[]);
    assert_eq!(library.titles[0].kind, TitleKind::Film);
}

#[test]
fn titles_merge_across_shares() {
    let nodes = vec![
        node("a", "1", "Frieren - S01E01", Some(1), Some(1)),
        node("b", "2", "frieren! - S01E02", Some(1), Some(2)),
    ];
    let library = Library::build(nodes, &[]);
    assert_eq!(library.titles.len(), 1);
    assert_eq!(library.titles[0].share_ids, vec!["a", "b"]);
}

#[test]
fn next_up_prefers_a_resume_over_an_unwatched_episode() {
    let nodes = vec![
        node("s", "1", "Show - S01E01", Some(1), Some(1)),
        node("s", "2", "Show - S01E02", Some(1), Some(2)),
        node("s", "3", "Show - S01E03", Some(1), Some(3)),
    ];
    let mut states = Vec::new();
    // Episode 1 finished, episode 2 half-watched.
    states.push(watch("1", 1_400_000, 1_440_000, false, 10));
    states.push(watch("2", 700_000, 1_440_000, false, 20));

    let library = Library::build(nodes, &states);
    let title = &library.titles[0];

    assert_eq!(title.watched_count(), 1);
    assert_eq!(title.next_up().unwrap().node.link_id, "2");
    assert_eq!(title.poster_node().unwrap().link_id, "1", "the first episode there is");
    assert_eq!(title.resume().unwrap().resume_at(), Some(700_000));
    assert_eq!(library.continue_watching().len(), 1);
}

#[test]
fn next_up_falls_through_to_the_first_unwatched() {
    let nodes = vec![
        node("s", "1", "Show - S01E01", Some(1), Some(1)),
        node("s", "2", "Show - S01E02", Some(1), Some(2)),
    ];
    let mut states = Vec::new();
    states.push(watch("1", 1_440_000, 1_440_000, true, 10));
    let library = Library::build(nodes, &states);
    assert_eq!(library.titles[0].next_up().unwrap().node.link_id, "2");
}

#[test]
fn a_barely_started_file_starts_over() {
    let nodes = vec![node("s", "1", "Show - S01E01", Some(1), Some(1))];
    let mut states = Vec::new();
    states.push(watch("1", 4_000, 1_440_000, false, 10));
    let library = Library::build(nodes, &states);
    let episode = &library.titles[0].seasons[0].episodes[0];
    assert_eq!(episode.resume_at(), None);
    assert!(library.continue_watching().is_empty());
}

#[test]
fn a_nearly_finished_file_counts_as_watched() {
    let nodes = vec![node("s", "1", "Show - S01E01", Some(1), Some(1))];
    let mut states = Vec::new();
    states.push(watch("1", 1_400_000, 1_440_000, false, 10));
    let library = Library::build(nodes, &states);
    assert!(library.titles[0].seasons[0].episodes[0].is_watched());
}

#[test]
fn search_matches_filenames_as_well_as_titles() {
    let mut first = node("s", "1", "Frieren - S01E01", Some(1), Some(1));
    first.name = "[SubsPlease] Frieren - 01 (1080p).mkv".into();
    let library = Library::build(vec![first], &[]);

    assert_eq!(library.search("subsplease").len(), 1);
    assert_eq!(library.search("frieren").len(), 1);
    assert_eq!(library.search("bebop").len(), 0);
    assert_eq!(library.search("  ").len(), 1);
}

#[test]
fn sorting_ignores_a_leading_article() {
    let nodes = vec![
        node("s", "1", "Zoo", None, Some(1)),
        node("s", "2", "The Expanse", None, Some(1)),
        node("s", "3", "Akira", None, Some(1)),
    ];
    let library = Library::build(nodes, &[]);
    let names: Vec<&str> = library.titles.iter().map(|t| t.name.as_str()).collect();
    assert_eq!(names, vec!["Akira", "The Expanse", "Zoo"]);
}

#[test]
fn title_key_ignores_punctuation_and_case() {
    assert_eq!(
        title_key("Fullmetal Alchemist: Brotherhood"),
        title_key("fullmetal alchemist brotherhood")
    );
    assert_eq!(title_key("K-On!!"), "k on");
}

/// An apostrophe closes up rather than separating, and a name written to
/// disk has usually lost it — the two have to key alike, or a folder called
/// `Heavens Feel` is a different title to the one the provider has.
#[test]
fn an_apostrophe_keys_the_same_as_its_absence() {
    assert_eq!(title_key("Heaven's Feel"), "heavens feel");
    assert_eq!(title_key("Heaven\u{2019}s Feel"), title_key("Heavens Feel"));
    assert_eq!(title_key("Devils' Line"), title_key("Devils Line"));
}

#[test]
fn folders_are_not_episodes() {
    let mut folder = node("s", "1", "Show", None, None);
    folder.is_folder = true;
    let library = Library::build(vec![folder], &[]);
    assert!(library.is_empty());
}

/// Every file handed in is in exactly one title.
#[test]
fn no_file_is_lost_between_titles() {
    let library = Library::build(
        vec![
            node("s", "1", "Show - S01E01", Some(1), Some(1)),
            node("s", "2", "Other - S01E01", Some(1), Some(1)),
            node("t", "1", "Show - S01E01", Some(1), Some(1)),
        ],
        &[],
    );
    let count: usize = library.titles.iter().map(|t| t.episode_count()).sum();
    assert_eq!(count, 3);
    assert_eq!(library.titles.len(), 2);
    assert!(library.get("show").is_some());
    assert!(library.get("Show").is_none());
}

#[test]
fn progress_counts_only_between_nothing_and_the_whole() {
    let nodes = vec![node("s", "1", "Show - S01E01", Some(1), Some(1))];
    let library = Library::build(nodes, &[watch("1", 2_000_000, 1_000_000, false, 1)]);
    let episode = &library.titles[0].seasons[0].episodes[0];
    let progress = episode.progress().unwrap();
    assert_eq!((progress.played, progress.of), (1_000_000, 1_000_000));
    assert!(episode.is_watched());
    assert_eq!(episode.last_played(), 1);
}

#[test]
fn a_key_is_put_together_from_what_each_character_says() {
    assert_eq!(
        join_key(&[
            KeyPart::Gap,
            KeyPart::Letters(vec!['h']),
            KeyPart::Silent,
            KeyPart::Letters(vec!['s']),
            KeyPart::Gap,
            KeyPart::Gap,
            KeyPart::Letters(vec!['s', 's']),
            KeyPart::Gap,
        ]),
        "hs ss"
    );
    // Lowered the way Unicode lowers it.
    assert_eq!(title_key("ÉTUDE №1"), "étude 1");
}

#[test]
fn search_lowers_what_unicode_lowers() {
    let mut file = node("s", "1", "Études - S01E01", Some(1), Some(1));
    file.name = "ÉTUDE.mkv".into();
    let library = Library::build(vec![file], &[]);
    assert_eq!(library.search("étude").len(), 1);
    assert_eq!(library.search("ÉTUDES").len(), 1);
}

/// In ASCII, a letter or digit is kept and lowered, an apostrophe closes up, and
/// everything else is a gap.
#[test]
fn every_character_of_ascii_has_its_part_in_a_key() {
    for n in 0_u8..128 {
        let c = char::from(n);
        let expected = if c.is_ascii_alphanumeric() {
            format!("x{}y", c.to_ascii_lowercase())
        } else if c == '\'' {
            "xy".to_owned()
        } else {
            "x y".to_owned()
        };
        assert_eq!(title_key(&format!("x{c}y")), expected, "{c:?}");
        let shelved: String = format!("x{c}y").to_ascii_lowercase();
        assert_eq!(sort_name(&format!("X{c}Y")), shelved, "{c:?}");
    }
}

#[test]
fn the_key_of_an_ascii_title_is_plain_and_is_its_own_key() {
    for title in ["  The Expanse!! ", "Re:ZERO -- Starting Life", "Heaven's Feel", "86", "", "--"] {
        let key = title_key(title);
        assert!(
            key.chars().all(|c| c.is_ascii_lowercase() || c.is_ascii_digit() || c == ' '),
            "{key}"
        );
        assert_eq!(key.trim(), key);
        assert!(!key.contains("  "), "{key}");
        assert_eq!(title_key(&key), key);
        assert_eq!(title_key(&title.to_ascii_uppercase()), key);
        assert_eq!(title_key(&title.to_ascii_lowercase()), key);
        assert_eq!(title_key(&title.replace('\'', "")), key);
        assert_eq!(sort_name(&title.to_ascii_uppercase()), sort_name(title));
    }
    assert_eq!(title_key("Re:ZERO -- Starting Life"), "re zero starting life");
}

#[test]
fn a_copy_of_a_library_is_the_same_library() {
    let library = Library::build(
        vec![
            node("s", "a", "Show - S01E01.mkv", Some(1), Some(1)),
            node("t", "b", "Show - S02E01.mkv", Some(2), Some(1)),
        ],
        &[watch("a", 60_000, 600_000, false, 5)],
    );
    assert!(!library.is_empty());
    assert_eq!(library.clone(), library);
    assert_eq!(library.titles[0].clone(), library.titles[0]);
    assert!(Library::default().is_empty());
}
