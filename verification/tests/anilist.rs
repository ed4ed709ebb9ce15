use proton_stream::anilist::{
    kind_of, media_id, search_step, search_terms, split_numbering, strip_markup,
    without_possessive_s, CoverImage, EpisodeMedia, FuzzyDate, Media, MediaTitle, SearchStep, StreamingEpisode,
};
use proton_stream::library::TitleKind;

#[test]
fn episodic_formats_are_series_and_everything_else_is_not() {
    assert_eq!(kind_of(Some("TV")), TitleKind::Series);
    assert_eq!(kind_of(Some("OVA")), TitleKind::Series);
    assert_eq!(kind_of(Some("MOVIE")), TitleKind::Film);
    assert_eq!(kind_of(None), TitleKind::Film);
}

#[test]
fn a_name_that_lost_its_apostrophe_is_searched_for_again_without_the_s() {
    assert_eq!(
        search_terms("Fate stay night Heavens Feel"),
        vec![
            "Fate stay night Heavens Feel".to_string(),
            "Fate stay night Heaven Feel".to_string(),
        ]
    );
}

#[test]
fn a_name_with_nothing_to_repair_is_searched_for_once() {
    assert_eq!(search_terms("Cowboy Bebop"), vec!["Cowboy Bebop"]);
    assert_eq!(search_terms("Heaven's Feel"), vec!["Heaven's Feel"]);
    assert_eq!(
        search_terms("Kids on the Bus"),
        vec!["Kids on the Bus".to_string(), "Kid on the Bus".to_string()],
        "a four-letter word is long enough; a three-letter one is not"
    );
}

#[test]
fn a_multi_byte_name_is_not_cut_inside_a_character() {
    for name in ["進撃の巨人", "Kaguya-sama: Love is War？", "café"] {
        let terms = search_terms(name);
        assert_eq!(terms[0], name);
    }
}

#[test]
fn markup_becomes_text_and_breaks_become_newlines() {
    assert_eq!(
        strip_markup("A <i>story</i>.<br>Then more.<br />And more."),
        "A story.\nThen more.\nAnd more."
    );
    assert_eq!(strip_markup("  plain  "), "plain");
}

fn bare(id: i64) -> Media {
    Media {
        id,
        title: MediaTitle {
            romaji: None,
            english: None,
            native: None,
        },
        synonyms: Vec::new(),
        description: None,
        start_date: None,
        cover_image: None,
        banner_image: None,
        average_score: None,
        genres: Vec::new(),
        episodes: None,
        format: None,
        site_url: None,
    }
}

#[test]
fn a_candidate_carries_every_name_the_show_is_known_by() {
    let media = Media {
        id: 16498,
        title: MediaTitle {
            romaji: Some("Shingeki no Kyojin".into()),
            english: Some("Attack on Titan".into()),
            native: Some("進撃の巨人".into()),
        },
        synonyms: vec!["AoT".into()],
        description: Some("Several hundred years ago…".into()),
        start_date: Some(FuzzyDate { year: Some(2013) }),
        cover_image: Some(CoverImage {
            extra_large: Some("big.jpg".into()),
            large: Some("small.jpg".into()),
        }),
        banner_image: None,
        average_score: Some(84_000),
        genres: vec!["Action".into()],
        episodes: Some(25),
        format: Some("TV".into()),
        site_url: Some("https://anilist.co/anime/16498".into()),
    };

    let candidate = media.into_candidate();
    assert_eq!(candidate.metadata.name, "Attack on Titan");
    assert_eq!(
        candidate.metadata.original_name.as_deref(),
        Some("進撃の巨人")
    );
    assert!(candidate
        .aliases
        .contains(&"Shingeki no Kyojin".to_string()));
    assert!(candidate.aliases.contains(&"AoT".to_string()));
    // Out of 10, not out of 100.
    assert_eq!(candidate.metadata.rating, Some(8_400));
    assert_eq!(candidate.metadata.poster_url.as_deref(), Some("big.jpg"));
    assert_eq!(candidate.metadata.year, Some(2013));
    assert_eq!(candidate.metadata.kind, TitleKind::Series);
    assert!(candidate.kind_known);
}

#[test]
fn an_episode_title_gives_up_its_number_and_its_name() {
    assert_eq!(
        split_numbering("Episode 57 - The Immortal Legion"),
        (Some(57), Some("The Immortal Legion".to_string()))
    );
    assert_eq!(split_numbering("Episode 12"), (Some(12), None));
    assert_eq!(
        split_numbering("The Day of the Beginning"),
        (None, Some("The Day of the Beginning".to_string()))
    );
    assert_eq!(
        split_numbering("E3 – Whatever"),
        (Some(3), Some("Whatever".to_string()))
    );
    assert_eq!(split_numbering(""), (None, None));
}

fn listed(title: Option<&str>, thumbnail: Option<&str>) -> StreamingEpisode {
    StreamingEpisode {
        title: title.map(|t| t.to_string()),
        thumbnail: thumbnail.map(|t| t.to_string()),
    }
}

#[test]
fn episode_numbers_come_from_the_titles_and_not_from_the_order() {
    let media = EpisodeMedia {
        streaming_episodes: vec![
            listed(Some("Episode 1 - Fullmetal Alchemist"), Some("one.jpg")),
            listed(Some("Episode 3 - City of Heresy"), None),
        ],
    };

    let episodes = media.into_episodes();
    assert_eq!(episodes[0].number, 1);
    assert_eq!(episodes[0].name.as_deref(), Some("Fullmetal Alchemist"));
    assert_eq!(episodes[0].still_url.as_deref(), Some("one.jpg"));
    assert_eq!(episodes[1].number, 3);
    // AniList counts straight through; nothing here is a season.
    assert!(episodes.iter().all(|episode| episode.season.is_none()));
}

#[test]
fn an_untitled_list_still_numbers_its_episodes() {
    let media = EpisodeMedia {
        streaming_episodes: vec![listed(None, None), listed(Some(""), None)],
    };
    let episodes = media.into_episodes();
    assert_eq!(episodes[0].number, 1);
    assert_eq!(episodes[1].number, 2);
    assert!(episodes.iter().all(|episode| episode.name.is_none()));
}

#[test]
fn an_entry_with_almost_nothing_in_it_still_parses() {
    let candidate = bare(1).into_candidate();
    assert_eq!(candidate.metadata.name, "AniList #1");
    assert!(candidate.aliases.is_empty());
    assert!(!candidate.kind_known);
}

#[test]
fn a_numbering_word_without_a_number_is_part_of_the_name() {
    assert_eq!(
        split_numbering("Encounter"),
        (None, Some("Encounter".to_string()))
    );
    assert_eq!(split_numbering("EP7: Start"), (Some(7), Some("Start".to_string())));
    // A number no episode has is not one.
    assert_eq!(split_numbering("Episode 99999999999 - Far"), (None, Some("Far".to_string())));
}

#[test]
fn only_an_s_after_a_letter_at_the_end_of_a_long_word_goes() {
    let name: Vec<char> = "Heavens 80's Bus".chars().collect();
    let letters: Vec<bool> = name.iter().map(|c| c.is_ascii_alphabetic()).collect();
    let repaired: String = without_possessive_s(&name, &letters).into_iter().collect();
    assert_eq!(repaired, "Heaven 80's Bus");
    let none = vec![false; name.len()];
    let kept: String = without_possessive_s(&name, &none).into_iter().collect();
    assert_eq!(kept, "Heavens 80's Bus");
    // A letter outside ASCII counts.
    assert_eq!(search_terms("Cafés"), vec!["Cafés", "Café"]);
}

#[test]
fn markup_that_never_closes_hides_the_rest() {
    assert_eq!(strip_markup("a <b c"), "a");
    assert_eq!(strip_markup("a > b"), "a  b");
}

#[test]
fn a_term_is_asked_for_only_because_the_one_before_found_nothing() {
    let name = "Heavens Feel";
    match search_step(name, 0, Vec::new()) {
        SearchStep::Ask(term) => assert_eq!(term, "Heavens Feel"),
        other => panic!("{other:?}"),
    }
    match search_step(name, 1, Vec::new()) {
        SearchStep::Ask(term) => assert_eq!(term, "Heaven Feel"),
        other => panic!("{other:?}"),
    }
    match search_step(name, 2, Vec::new()) {
        SearchStep::Done(found) => assert!(found.is_empty()),
        other => panic!("{other:?}"),
    }
    match search_step(name, 1, vec![bare(5)]) {
        SearchStep::Done(found) => assert_eq!(found[0].metadata.remote_id, "5"),
        other => panic!("{other:?}"),
    }
}

#[test]
fn an_entry_is_asked_about_by_the_id_its_search_gave() {
    let mut found = bare(16498).into_candidate().metadata;
    assert_eq!(media_id(&found), Some(16498));
    found.remote_id = "shingeki".into();
    assert_eq!(media_id(&found), None);
}

/// The `s` of a possessive is dropped behind a letter, and in ASCII only the
/// letters are one.
#[test]
fn only_a_letter_holds_on_to_an_s() {
    for n in 0_u8..128 {
        let c = char::from(n);
        let name = format!("ab{c}s");
        let expected = if c.is_ascii_alphabetic() {
            vec![name.clone(), format!("ab{c}")]
        } else {
            vec![name.clone()]
        };
        assert_eq!(search_terms(&name), expected, "{c:?}");
    }
}
