use proton_stream::naming::classify_folder;
use proton_stream::naming::is_season_marker;
use proton_stream::naming::is_video_file;
use proton_stream::naming::parse;
use proton_stream::naming::FolderRole;

fn parsed(name: &str) -> (String, Option<u32>, Option<u32>, Option<u32>) {
    let p = parse(name);
    (p.title, p.season, p.episode, p.year)
}

/// The fansub convention: bracketed group, dash-delimited absolute episode
/// number, bracketed checksum. No season is stated and none is invented.
#[test]
fn a_fansub_release_yields_title_and_absolute_episode() {
    assert_eq!(
        parsed("[SubsPlease] Frieren - 12 (1080p) [A1B2C3D4].mkv"),
        ("Frieren".into(), None, Some(12), None)
    );
}

/// A title containing its own dash must not be cut at the first one — the
/// numbering is the *last* dash-delimited number.
#[test]
fn a_dash_in_the_title_survives_absolute_numbering() {
    assert_eq!(
        parsed("[Group] Fate stay night - Unlimited Blade Works - 06 [720p].mkv"),
        (
            "Fate stay night - Unlimited Blade Works".into(),
            None,
            Some(6),
            None
        )
    );
}

/// A version suffix still names the same episode.
#[test]
fn a_versioned_fansub_episode_keeps_its_number() {
    assert_eq!(
        parsed("[Group] Show Name - 07v2 [1080p].mkv"),
        ("Show Name".into(), None, Some(7), None)
    );
}

/// The western convention: dot separators, `SxxEyy`, and a tail of quality
/// and codec tags that must not reach the title.
#[test]
fn a_scene_release_yields_title_season_and_episode() {
    assert_eq!(
        parsed("Show.Name.S02E05.1080p.WEB-DL.x265.mkv"),
        ("Show Name".into(), Some(2), Some(5), None)
    );
}

/// Lowercase numbering is the same numbering.
#[test]
fn season_episode_matching_is_case_insensitive() {
    assert_eq!(
        parsed("show.name.s01e01.720p.mkv"),
        ("show name".into(), Some(1), Some(1), None)
    );
}

/// The older cross convention.
#[test]
fn cross_numbering_is_read_as_season_and_episode() {
    assert_eq!(
        parsed("Some Show 1x05 [HDTV].avi"),
        ("Some Show".into(), Some(1), Some(5), None)
    );
}

/// A film: a year, no numbering, and tags that are dropped.
#[test]
fn a_film_yields_a_title_and_year_and_no_numbering() {
    assert_eq!(
        parsed("Movie Title (2019) [1080p] [HEVC].mkv"),
        ("Movie Title".into(), None, None, Some(2019))
    );
}

/// The scene form for films: a bare, dot-delimited year.
#[test]
fn a_bare_year_token_is_read_as_a_year() {
    let p = parse("Movie.Name.2019.1080p.BluRay.x264.mkv");
    assert_eq!(p.year, Some(2019));
    assert_eq!(p.title, "Movie Name");
}

/// And the resolutions that sit right next to it are not years — `1080` and
/// `720` are out of range, and `2160` never appears without its `p`.
#[test]
fn a_bare_resolution_is_not_mistaken_for_a_year() {
    assert_eq!(parse("Show.Name.S01E01.1080p.mkv").year, None);
    assert_eq!(parse("Show.Name.S01E01.720p.mkv").year, None);
    assert_eq!(parse("Show.Name.S01E01.2160p.HDR.mkv").year, None);
}

/// **A panic, not a mis-parse.** Superscripts and other multi-byte
/// characters appear in real release names (`Death (True)²-007.mkv`), and
/// byte-indexed slicing around them cuts inside a character.
#[test]
fn a_multi_byte_character_does_not_break_parsing() {
    for name in [
        "[Anime Time] Neon Genesis Evangelion - Death (True)\u{b2}-007.mkv",
        "Show \u{2013} S01E01 \u{2013} caf\u{e9}.mkv",
        "\u{5c0f}\u{8aac} Season 01 E03.mkv",
    ] {
        let parsed = parse(name);
        assert!(
            !parsed.title.is_empty() || parsed.episode.is_some(),
            "{name}"
        );
    }
}

/// **A panic, not a mis-parse.** A folder name whose trailing digits sit
/// directly behind a multi-byte character — or that simply *ends* in one —
/// used to be split one byte past that character's start, i.e. inside it.
#[test]
fn a_multi_byte_character_does_not_break_folder_classification() {
    for name in [
        "Neon Genesis Evangelion Death (True)\u{b2}",
        "Show\u{b2}3",
        "Show\u{b2}3rd Season",
        "Caf\u{e9} Season 2",
        "\u{b2}",
    ] {
        // The classification itself is the assertion: any of these used to
        // panic before it could return one.
        let _ = classify_folder(name);
    }

    let FolderRole::Title(parsed) = classify_folder("Caf\u{e9} Season 2") else {
        panic!("expected a title");
    };
    assert_eq!((parsed.title.as_str(), parsed.season), ("Café", Some(2)));
}

/// A resolution is four digits in brackets too, and must not read as a year.
#[test]
fn a_bracketed_resolution_is_not_mistaken_for_a_year() {
    let p = parse("Show Name - 03 [1080p].mkv");
    assert_eq!(p.year, None, "1080p is not a release year");
    assert_eq!(p.episode, Some(3));
}

/// A season pack or season folder states a season and no episode.
#[test]
fn a_bare_season_is_read_without_an_episode() {
    assert_eq!(
        parsed("Show Name S03 COMPLETE"),
        ("Show Name".into(), Some(3), None, None)
    );
}

/// `Seasons` starts with an `s` and a digit follows nearby; it is still not
/// numbering.
#[test]
fn a_word_beginning_with_s_does_not_start_a_season() {
    let p = parse("Four Seasons 2019.mkv");
    assert_eq!(p.season, None, "'Seasons' is not 'S...'");
}

/// Titles with dots in them are exactly why the extension check is
/// conservative.
#[test]
fn a_dotted_title_keeps_its_words() {
    assert_eq!(
        parsed("Serial.Experiments.Lain.S01E03.mkv"),
        ("Serial Experiments Lain".into(), Some(1), Some(3), None)
    );
}

/// Nothing recognisable still yields a usable title — a catalog that drops
/// files it cannot parse is worse than one with an odd name in it.
#[test]
fn an_unrecognisable_name_still_yields_a_title() {
    assert_eq!(
        parsed("some_random_file.mkv"),
        ("some random file".into(), None, None, None)
    );
}

/// Unbalanced brackets mean the name is not the convention assumed, so the
/// stripper leaves it alone rather than swallowing the rest.
#[test]
fn unbalanced_brackets_do_not_swallow_the_name() {
    let p = parse("[Group Show Name - 05.mkv");
    assert!(p.title.contains("Show Name"), "title survived: {}", p.title);
}

/// A name with no extension at all parses the same way.
#[test]
fn a_name_without_an_extension_parses_the_same() {
    assert_eq!(
        parsed("Show.Name.S02E05"),
        ("Show Name".into(), Some(2), Some(5), None)
    );
}

/// The episode's own name, where the filename states one.
#[test]
fn an_episode_name_after_the_numbering_is_captured() {
    let p = parse("S01E01-Mother and Children [B496EBF1].mkv");
    assert_eq!(p.season, Some(1));
    assert_eq!(p.episode, Some(1));
    assert_eq!(p.episode_title.as_deref(), Some("Mother and Children"));
    assert_eq!(p.title, "", "the filename states no series");
}

/// **The trap.** Scene releases separate their tags with the same character
/// they separate title words with, so without requiring a dash the quality
/// and codec tags would be read as the episode's name.
#[test]
fn quality_tags_after_the_numbering_are_not_an_episode_name() {
    let p = parse("Show.Name.S02E05.1080p.WEB-DL.x265.mkv");
    assert_eq!(p.episode_title, None, "1080p.WEB-DL.x265 is not a name");
    assert_eq!(p.title, "Show Name");
}

/// A library that names its files with nothing but the episode marker.
#[test]
fn a_bare_episode_marker_is_read_as_an_episode() {
    assert_eq!(parse("E11.mkv").episode, Some(11));
    assert_eq!(parse("EP07.mkv").episode, Some(7));
    assert_eq!(parse("Ep 3.mkv").episode, Some(3));
}

/// A dash-introduced marker, the form fansubs use for OVAs.
#[test]
fn a_dash_introduced_episode_marker_is_read_as_an_episode() {
    let p = parse("[Reaktor] Fullmetal Alchemist Brotherhood OVA - E2 v2 [1080p].mkv");
    assert_eq!(p.episode, Some(2));
    assert_eq!(p.title, "Fullmetal Alchemist Brotherhood OVA");
}

/// A filename that is nothing but its episode number — the folder carries
/// the title in this convention.
#[test]
fn a_bare_number_filename_is_read_as_an_episode() {
    for (name, episode) in [("11.mkv", 11), ("01.mkv", 1), ("7.mkv", 7)] {
        let parsed = parse(name);
        assert_eq!(parsed.episode, Some(episode), "{name}");
        assert_eq!(parsed.title, "", "{name} states no title");
    }
}

/// A film named for a year must not become episode 1917.
#[test]
fn a_year_shaped_filename_is_not_an_episode() {
    let parsed = parse("1917.mkv");
    assert_eq!(parsed.episode, None);
    assert_eq!(parsed.year, Some(1917));
}

/// **A season and an episode stated in different conventions.** Matching the
/// season must not end the search, or the episode is dropped.
#[test]
fn a_season_marker_and_a_dash_episode_are_both_read() {
    let p = parse("[EMBER] Oshi no Ko S2 - 04.mkv");
    assert_eq!(p.title, "Oshi no Ko");
    assert_eq!(p.season, Some(2));
    assert_eq!(p.episode, Some(4));
}

/// Some groups separate every field with underscores, the dash included —
/// and spell the season out rather than numbering it `S03`.
///
/// **Both halves matter.** Reading `3rd Season` as part of the title files
/// the season under its own poster; leaving it in the span after the series
/// name makes it the *episode's* name, so every episode of season three is
/// called "3rd Season" in the list.
#[test]
fn underscore_separated_numbering_is_read() {
    let p = parse("[DB]Oshi no Ko 3rd Season_-_07_(Dual Audio_10bit_1080p_x265).mkv");
    assert_eq!(p.episode, Some(7));
    assert_eq!(p.season, Some(3));
    assert_eq!(p.title, "Oshi no Ko");
    assert_eq!(p.episode_title, None);
}

/// Every way a release spells a season out, in both orders.
#[test]
fn a_worded_season_is_read_as_a_season() {
    for (name, season, episode) in [
        ("[Group] Show 2nd Season - 04 [1080p].mkv", 2, 4),
        ("[Group] Show 3rd Season - 11.mkv", 3, 11),
        ("Show 1st Season - 01.mkv", 1, 1),
        ("Show 4th Season - 02.mkv", 4, 2),
        ("Show Season 2 - 06.mkv", 2, 6),
        ("Show.Season.3.E05.mkv", 3, 5),
    ] {
        let parsed = parse(name);
        assert_eq!(parsed.season, Some(season), "{name}");
        assert_eq!(parsed.episode, Some(episode), "{name}");
        assert_eq!(parsed.title, "Show", "{name}");
    }
}

/// The ordinal has to belong to the word `Season`. A title that merely ends
/// in one keeps it, and a season with no keyword is not a season.
#[test]
fn an_ordinal_that_is_part_of_the_title_is_not_a_season() {
    for name in [
        "[Group] 3rd Rate Duelist - 04.mkv",
        "[Group] My 1st Kiss - 02.mkv",
        "[Group] Show 3 - 04.mkv",
    ] {
        let parsed = parse(name);
        assert_eq!(parsed.season, None, "{name}");
    }
    // `Seasons` is not `Season`: the keyword has to end the token.
    assert_eq!(parse("Show 2nd Seasoning - 03.mkv").season, None);
}

/// A folder that spells its season out is a season folder, not a series
/// called `3rd Season`.
#[test]
fn a_worded_season_folder_is_a_season_folder() {
    assert_eq!(classify_folder("3rd Season"), FolderRole::Season(3));
    assert_eq!(classify_folder("2nd season"), FolderRole::Season(2));
    assert_eq!(classify_folder("Season 3"), FolderRole::Season(3));
}

/// What `build_rows` asks before keeping a filename's leftovers as the
/// episode's name.
#[test]
fn a_season_marker_is_recognised_as_one() {
    for name in ["3rd Season", "2nd season", "Season 2", "S03", "season 01"] {
        assert!(is_season_marker(name), "{name} states only a season");
    }
    for name in ["Mother and Children", "The End of Evangelion", ""] {
        assert!(!is_season_marker(name), "{name} is a name");
    }
}

/// A title beginning with `E` is not an episode marker.
#[test]
fn a_word_beginning_with_e_does_not_start_an_episode() {
    assert_eq!(parse("Evangelion.mkv").episode, None);
    assert_eq!(parse("The End of Evangelion.mkv").episode, None);
}

/// Season folders state a season and nothing else.
#[test]
fn season_folders_are_classified_as_seasons() {
    assert_eq!(classify_folder("Season 01"), FolderRole::Season(1));
    assert_eq!(classify_folder("season 2"), FolderRole::Season(2));
    assert_eq!(classify_folder("S03"), FolderRole::Season(3));
}

/// A folder that names the series *and* its season must give up both, or
/// the shelf shows one poster per season of the same show.
#[test]
fn a_folder_naming_series_and_season_yields_both() {
    for (name, series, season) in [
        ("Game of Thrones - Season 1", "Game of Thrones", 1),
        ("Game of Thrones Season 10", "Game of Thrones", 10),
        ("The Expanse - S03", "The Expanse", 3),
        ("Breaking Bad.season.2", "Breaking Bad", 2),
    ] {
        let FolderRole::Title(parsed) = classify_folder(name) else {
            panic!("{name} was not classified as a title");
        };
        assert_eq!(parsed.title, series, "{name}");
        assert_eq!(parsed.season, Some(season), "{name}");
    }
}

/// The keyword is what makes it a season. A title that merely ends in a
/// number keeps it.
#[test]
fn a_title_ending_in_a_number_keeps_it() {
    for name in ["Evangelion 3", "Kaijuu 8", "Alien 3"] {
        let FolderRole::Title(parsed) = classify_folder(name) else {
            panic!("{name} was not classified as a title");
        };
        assert_eq!(parsed.season, None, "{name}");
        assert_eq!(parsed.title, name, "{name}");
    }

    // A four-digit tail is read as a year, as it is everywhere else — but
    // still never as a season.
    let FolderRole::Title(parsed) = classify_folder("Blade Runner 2049") else {
        panic!("not a title");
    };
    assert_eq!(parsed.season, None);
    assert_eq!(parsed.year, Some(2049));
}

/// Grouping folders name nothing, so a title has to come from above them.
#[test]
fn grouping_folders_are_classified_as_containers() {
    for name in ["Movies", "OVA", "Specials", "extras", "NCED"] {
        assert_eq!(
            classify_folder(name),
            FolderRole::Container,
            "{name} groups without naming"
        );
    }
}

/// Everything else names the series or film — and is parsed, so a year in
/// the folder name is picked up too.
#[test]
fn other_folders_name_the_series() {
    match classify_folder("Ghost in the Shell (1995)") {
        FolderRole::Title(parsed) => {
            assert_eq!(parsed.title, "Ghost in the Shell");
            assert_eq!(parsed.year, Some(1995));
        }
        other => panic!("expected a title, got {other:?}"),
    }
    // A folder that merely contains the word is not a container.
    assert!(matches!(
        classify_folder("Satoshi Kon Movies"),
        FolderRole::Title(_)
    ));
}

/// A share holds `.nfo` and `.jpg` next to the video; a catalog that offers
/// those as episodes is worse than one missing an exotic container.
#[test]
fn only_playable_containers_count_as_video() {
    for name in ["a.mkv", "a.MP4", "a.webm", "a.m2ts", "a.avi"] {
        assert!(is_video_file(name), "{name} is playable");
    }
    for name in ["torrent.info.nfo", "poster.jpg", "readme.txt", "noext"] {
        assert!(!is_video_file(name), "{name} is not");
    }
}

/// `is_episode` is what the catalog groups on.
#[test]
fn episodes_and_films_are_distinguishable() {
    assert!(parse("Show.Name.S01E01.mkv").is_episode());
    assert!(!parse("Movie Title (2019).mkv").is_episode());
}

/// A bracket that closes nothing, and one that closes a bracket of the other
/// kind, are unbalanced too.
#[test]
fn a_bracket_that_closes_nothing_is_left_alone() {
    let p = parse("Show] Name - 05.mkv");
    assert_eq!(p.title, "Show] Name");
    assert_eq!(p.episode, Some(5));
    assert_eq!(parse("(Group] Show Name - 05.mkv").title, "(Group] Show Name");
    assert_eq!(parse("[a(b]c) Show Name - 05.mkv").title, "[a(b]c) Show Name");
    assert_eq!(parse("[a(b)c] Show Name - 05.mkv").title, "Show Name");
}

#[test]
fn a_copy_of_a_role_is_the_same_role() {
    for name in ["Season 01", "Movies", "Ghost in the Shell (1995)"] {
        let role = classify_folder(name);
        assert_eq!(role.clone(), role, "{name}");
    }
}
