use proton_stream::library::TitleKind;
use proton_stream::meta_error::Error;
use proton_stream::metadata::{ProviderId, TitleMetadata};
use proton_stream::tmdb::{
    appended, candidates, check_key, episodes, episodes_step, season_field, seasons_to_ask,
    show_id, year_of, EpisodeRow, EpisodesEvent, EpisodesStep, SearchResult,
};

#[test]
fn a_year_is_taken_from_the_front_of_a_date() {
    assert_eq!(year_of(Some("1998-04-03")), Some(1998));
    assert_eq!(year_of(Some("")), None);
    assert_eq!(year_of(Some("soon")), None);
    assert_eq!(year_of(None), None);
}

fn result(id: i64, media_type: &str) -> SearchResult {
    SearchResult {
        id,
        media_type: Some(media_type.into()),
        name: None,
        title: None,
        original_name: None,
        original_title: None,
        overview: None,
        first_air_date: None,
        release_date: None,
        poster_path: None,
        backdrop_path: None,
        vote_average: None,
    }
}

#[test]
fn television_and_film_results_normalise_to_the_same_shape() {
    let series = SearchResult {
        name: Some("Cowboy Bebop".into()),
        original_name: Some("カウボーイビバップ".into()),
        first_air_date: Some("1998-04-03".into()),
        poster_path: Some("/p.jpg".into()),
        backdrop_path: Some("/b.jpg".into()),
        vote_average: Some(8_600),
        ..result(1, "tv")
    };
    let series = series.into_candidate();
    assert_eq!(series.metadata.kind, TitleKind::Series);
    assert_eq!(series.metadata.year, Some(1998));
    assert_eq!(
        series.metadata.poster_url.as_deref(),
        Some("https://image.tmdb.org/t/p/w500/p.jpg")
    );
    assert_eq!(
        series.metadata.backdrop_url.as_deref(),
        Some("https://image.tmdb.org/t/p/w780/b.jpg")
    );
    assert_eq!(series.metadata.rating, Some(8_600));
    assert_eq!(series.aliases, vec!["Cowboy Bebop", "カウボーイビバップ"]);
    assert_eq!(
        series.metadata.url.as_deref(),
        Some("https://www.themoviedb.org/tv/1")
    );

    let film = SearchResult {
        title: Some("Akira".into()),
        release_date: Some("1988-07-16".into()),
        ..result(2, "movie")
    };
    let film = film.into_candidate();
    assert_eq!(film.metadata.kind, TitleKind::Film);
    assert_eq!(film.metadata.name, "Akira");
    assert_eq!(film.metadata.year, Some(1988));
}

#[test]
fn an_unrated_title_reports_no_rating() {
    let unrated = SearchResult {
        title: Some("New".into()),
        vote_average: Some(0),
        ..result(3, "movie")
    };
    assert_eq!(unrated.into_candidate().metadata.rating, None);
}

#[test]
fn a_result_without_a_name_is_called_by_its_number() {
    let nameless = result(-4, "movie").into_candidate();
    assert_eq!(nameless.metadata.name, "TMDB #-4");
    assert_eq!(nameless.metadata.remote_id, "-4");
    assert!(nameless.aliases.is_empty());
}

#[test]
fn people_are_not_candidates() {
    let mut nobody = result(9, "tv");
    nobody.media_type = None;
    let found = candidates(vec![
        result(1, "person"),
        result(2, "tv"),
        nobody,
        result(3, "movie"),
    ]);
    let ids: Vec<&str> = found.iter().map(|c| c.metadata.remote_id.as_str()).collect();
    assert_eq!(ids, vec!["2", "3"]);
}

#[test]
fn a_blank_key_is_a_missing_one() {
    assert_eq!(check_key("  "), Err(Error::MissingApiKey(ProviderId::Tmdb)));
    assert_eq!(check_key("k"), Ok(()));
}

fn title(kind: TitleKind, remote_id: &str) -> TitleMetadata {
    TitleMetadata {
        provider: ProviderId::Tmdb,
        remote_id: remote_id.into(),
        name: "x".into(),
        original_name: None,
        overview: None,
        year: None,
        kind,
        poster_url: None,
        backdrop_url: None,
        rating: None,
        genres: Vec::new(),
        episodes: None,
        url: None,
    }
}

#[test]
fn only_a_series_with_a_number_is_asked_about() {
    assert_eq!(show_id(&title(TitleKind::Series, "31911")), Some(31911));
    assert_eq!(show_id(&title(TitleKind::Series, "-7")), Some(-7));
    assert_eq!(show_id(&title(TitleKind::Series, "abc")), None);
    assert_eq!(show_id(&title(TitleKind::Series, "9223372036854775808")), None);
    assert_eq!(
        show_id(&title(TitleKind::Series, "-9223372036854775808")),
        Some(i64::MIN)
    );
    assert_eq!(show_id(&title(TitleKind::Film, "31911")), None);
}

#[test]
fn specials_are_left_out_and_twenty_seasons_are_enough() {
    assert_eq!(seasons_to_ask(&[0, 1, 2]), vec![1, 2]);
    let many: Vec<u32> = (0..30).collect();
    let asked = seasons_to_ask(&many);
    assert_eq!(asked.len(), 20);
    assert_eq!(asked[0], 1);
    assert_eq!(asked[19], 20);
    assert_eq!(appended(&[1, 12]), "season/1,season/12");
    assert_eq!(appended(&[]), "");
    assert_eq!(season_field(3), "season/3");
}

#[test]
fn seasons_that_came_back_are_read_and_the_others_passed_over() {
    let row = |number: u32, overview: &str, still: Option<&str>| EpisodeRow {
        episode_number: number,
        name: Some("The First Day".into()),
        overview: Some(overview.into()),
        still_path: still.map(|s| s.to_string()),
        air_date: Some("".into()),
    };
    let listed = episodes(&[
        (1, Some(vec![row(1, "Ed and Al…", Some("/still.jpg")), row(2, "", None)])),
        (2, None),
        (3, Some(vec![row(1, "x", None)])),
    ]);
    assert_eq!(listed.len(), 3);
    assert_eq!(listed[0].season, Some(1));
    assert_eq!(listed[0].overview.as_deref(), Some("Ed and Al…"));
    assert_eq!(
        listed[0].still_url.as_deref(),
        Some("https://image.tmdb.org/t/p/w300/still.jpg")
    );
    assert_eq!(listed[0].air_date, None);
    assert_eq!(listed[1].overview, None);
    assert_eq!(listed[2].season, Some(3));
}

/// The appended-season response carries the show's own fields beside the
/// seasons, and those must not stop the seasons being found.
#[test]
fn seasons_are_picked_out_of_a_response_full_of_other_fields() {
    let response: serde_json::Value = serde_json::from_str(
        r#"{
            "id": 31911,
            "name": "Fullmetal Alchemist: Brotherhood",
            "number_of_seasons": 1,
            "genres": [{"id": 16, "name": "Animation"}],
            "season/1": {
                "episodes": [
                    {"episode_number": 1, "name": "Fullmetal Alchemist",
                     "overview": "Ed and Al…", "still_path": "/still.jpg",
                     "air_date": "2009-04-05"},
                    {"episode_number": 2, "name": "The First Day",
                     "overview": "", "still_path": null, "air_date": null}
                ]
            }
        }"#,
    )
    .expect("parse");

    let text = |row: &serde_json::Value, field: &str| {
        row.get(field).and_then(|v| v.as_str()).map(|v| v.to_string())
    };
    let season = |number: u32| {
        response.get(season_field(number)).map(|season| {
            season["episodes"]
                .as_array()
                .expect("a list")
                .iter()
                .map(|row| EpisodeRow {
                    episode_number: row["episode_number"].as_u64().expect("a number") as u32,
                    name: text(row, "name"),
                    overview: text(row, "overview"),
                    still_path: text(row, "still_path"),
                    air_date: text(row, "air_date"),
                })
                .collect::<Vec<EpisodeRow>>()
        })
    };

    let first = season(1).expect("season one");
    assert_eq!(first.len(), 2);
    assert_eq!(first[0].name.as_deref(), Some("Fullmetal Alchemist"));
    assert_eq!(first[0].still_path.as_deref(), Some("/still.jpg"));
    assert!(season(2).is_none());

    let listed = episodes(&[(1, Some(first)), (2, season(2))]);
    assert_eq!(listed.len(), 2);
    assert_eq!(listed[0].air_date.as_deref(), Some("2009-04-05"));
}

#[test]
fn a_show_is_asked_for_and_then_its_seasons() {
    let show = title(TitleKind::Series, "30991");
    assert_eq!(
        episodes_step(&show, EpisodesEvent::Begin),
        EpisodesStep::AskShow(30991)
    );
    assert_eq!(
        episodes_step(&show, EpisodesEvent::Listed(vec![0, 1, 2])),
        EpisodesStep::AskSeasons(30991, vec![1, 2], "season/1,season/2".into())
    );
    let row = EpisodeRow {
        episode_number: 5,
        name: Some("Ballad of Fallen Angels".into()),
        overview: None,
        still_path: None,
        air_date: None,
    };
    match episodes_step(
        &show,
        EpisodesEvent::Detailed(vec![(1, Some(vec![row])), (2, None)]),
    ) {
        EpisodesStep::Done(listed) => {
            assert_eq!(listed.len(), 1);
            assert_eq!((listed[0].season, listed[0].number), (Some(1), 5));
        }
        other => panic!("{other:?}"),
    }
}

#[test]
fn nothing_is_asked_about_a_film_or_a_show_of_specials() {
    let nothing = EpisodesStep::Done(Vec::new());
    let film = title(TitleKind::Film, "11299");
    assert_eq!(episodes_step(&film, EpisodesEvent::Begin), nothing);
    let odd = title(TitleKind::Series, "tt0213338");
    assert_eq!(episodes_step(&odd, EpisodesEvent::Begin), nothing);
    let show = title(TitleKind::Series, "30991");
    assert_eq!(episodes_step(&show, EpisodesEvent::Listed(vec![0])), nothing);
}
