use proton_stream::catalog::{CatalogNode, CrawledKind, CrawledNode};
use proton_stream::rows::{ancestry, build_rows, from_node, strip_prefix_title};
use proton_stream::uid::NodeUid;

fn uid(link: &str) -> NodeUid {
    NodeUid {
        volume_id: "vol".into(),
        link_id: link.into(),
    }
}

fn folder(link: &str, parent: Option<&str>, name: &str) -> CrawledNode {
    CrawledNode {
        uid: uid(link),
        parent_uid: parent.map(uid),
        name: name.into(),
        kind: CrawledKind::Folder,
    }
}

fn video(link: &str, parent: &str, name: &str) -> CrawledNode {
    CrawledNode {
        kind: CrawledKind::File {
            media_type: "video/x-matroska".into(),
            claimed_size: Some(1 << 30),
            active_revision_id: Some("rev".into()),
        },
        ..folder(link, Some(parent), name)
    }
}

/// The share root, whose parent is outside what a visitor can see.
fn root() -> CrawledNode {
    folder("root", Some("outside-the-share"), "anime")
}

fn row<'a>(rows: &'a [CatalogNode], link: &str) -> &'a CatalogNode {
    rows.iter()
        .find(|row| row.link_id == link)
        .unwrap_or_else(|| panic!("no row for {link}"))
}

/// **The layout nearly every real library uses.** `S01E01.mkv` names no
/// series at all; without walking the folder path the whole catalog would be
/// untitled.
#[test]
fn a_files_title_comes_from_its_series_folder() {
    let nodes = vec![
        root(),
        folder("frieren", Some("root"), "Sousou no Frieren"),
        folder("s1", Some("frieren"), "Season 01"),
        video("ep1", "s1", "S01E01.mkv"),
    ];
    let rows = build_rows("share", &nodes);

    assert_eq!(rows.len(), 1, "folders are not catalog entries");
    let episode = row(&rows, "ep1");
    assert_eq!(episode.parsed.title, "Sousou no Frieren");
    assert_eq!(episode.parsed.season, Some(1));
    assert_eq!(episode.parsed.episode, Some(1));
}

/// A season folder supplies the season when the filename states only an
/// episode marker.
#[test]
fn a_season_folder_supplies_the_season() {
    let nodes = vec![
        root(),
        folder("kaijuu", Some("root"), "Kaijuu 8-gou"),
        folder("s2", Some("kaijuu"), "Season 02"),
        video("e4", "s2", "E04.mkv"),
    ];
    let episode = build_rows("share", &nodes);
    let episode = row(&episode, "e4");
    assert_eq!(episode.parsed.title, "Kaijuu 8-gou");
    assert_eq!(episode.parsed.season, Some(2), "from the folder");
    assert_eq!(episode.parsed.episode, Some(4), "from the filename");
}

/// A grouping folder is stepped over, so its contents group under the series
/// above it rather than under a folder called `Movies`.
#[test]
fn a_grouping_folder_is_stepped_over_to_reach_the_series() {
    let nodes = vec![
        root(),
        folder("eva", Some("root"), "Neon Genesis Evangelion"),
        folder("movies", Some("eva"), "Movies"),
        video(
            "film",
            "movies",
            "[Anime Time] Neon Genesis Evangelion - The End of Evangelion-003.mkv",
        ),
    ];
    let film = build_rows("share", &nodes);
    let film = row(&film, "film");
    assert_eq!(film.parsed.title, "Neon Genesis Evangelion");
    assert_eq!(
        film.parsed.episode_title.as_deref(),
        Some("The End of Evangelion"),
        "the filename's own title is the film's name, minus the series prefix"
    );
}

/// **What every episode of Oshi no Ko season three was called.** The
/// filename states the season in words, the folder states the series, and
/// the difference between the two is a season marker — not the name of the
/// episode.
#[test]
fn a_season_stated_in_the_filename_does_not_become_the_episodes_name() {
    let nodes = vec![
        root(),
        folder("onk", Some("root"), "Oshi no Ko"),
        video(
            "e7",
            "onk",
            "[DB]Oshi no Ko 3rd Season_-_07_(Dual Audio_10bit_1080p_x265).mkv",
        ),
    ];
    let rows = build_rows("share", &nodes);
    let episode = row(&rows, "e7");

    assert_eq!(episode.parsed.title, "Oshi no Ko");
    assert_eq!(episode.parsed.season, Some(3));
    assert_eq!(episode.parsed.episode, Some(7));
    assert_eq!(episode.parsed.episode_title, None);
}

/// The deepest naming folder wins, so films inside a collection folder are
/// titled individually rather than by the collection.
#[test]
fn the_deepest_naming_folder_wins() {
    let nodes = vec![
        root(),
        folder("kon", Some("root"), "Satoshi Kon Movies"),
        folder("millennium", Some("kon"), "Millennium Actress"),
        video("film", "millennium", "Millennium.Actress.1080p.mkv"),
    ];
    let film = build_rows("share", &nodes);
    assert_eq!(row(&film, "film").parsed.title, "Millennium Actress");
}

/// The share root names the *share*, not a series — using it would label
/// every top-level file identically.
#[test]
fn the_share_root_is_not_used_as_a_title() {
    let nodes = vec![root(), video("loose", "root", "Some.Film.2019.mkv")];
    let film = build_rows("share", &nodes);
    assert_eq!(
        row(&film, "loose").parsed.title,
        "Some Film",
        "the filename's title stands, rather than the root folder's name"
    );
}

/// A folder year reaches the files under it.
#[test]
fn a_year_in_the_folder_name_reaches_its_files() {
    let nodes = vec![
        root(),
        folder("gits", Some("root"), "Ghost in the Shell (1995)"),
        video("film", "gits", "gits.bd.1080p.mkv"),
    ];
    let film = build_rows("share", &nodes);
    let film = row(&film, "film");
    assert_eq!(film.parsed.title, "Ghost in the Shell");
    assert_eq!(film.parsed.year, Some(1995));
}

/// Non-video files are dropped: a share holds `.nfo` and `.jpg` next to the
/// video, and offering those as episodes is worse than omitting them.
#[test]
fn non_video_files_do_not_enter_the_catalog() {
    let nodes = vec![
        root(),
        folder("gits", Some("root"), "Ghost in the Shell (1995)"),
        video("film", "gits", "gits.mkv"),
        video("info", "gits", "torrent.info.nfo"),
        video("art", "gits", "poster.jpg"),
    ];
    let rows = build_rows("share", &nodes);
    assert_eq!(rows.len(), 1);
    assert_eq!(rows[0].link_id, "film");
}

#[test]
fn a_row_says_what_its_node_says() {
    let row = from_node("share", &video("ep", "s1", "Show.S01E02.mkv"));
    assert_eq!(row.share_id, "share");
    assert_eq!(row.link_id, "ep");
    assert_eq!(row.volume_id, "vol");
    assert_eq!(row.parent_link_id.as_deref(), Some("s1"));
    assert!(!row.is_folder);
    assert_eq!(row.media_type.as_deref(), Some("video/x-matroska"));
    assert_eq!(row.size, Some(1 << 30));
    assert_eq!(row.active_revision_id.as_deref(), Some("rev"));
    assert_eq!(row.parsed.episode, Some(2));

    let row = from_node("share", &folder("f", None, "Show"));
    assert!(row.is_folder);
    assert_eq!(row.media_type, None);
    assert_eq!(row.parent_link_id, None);
}

#[test]
fn a_folder_that_names_both_gives_its_files_the_season() {
    let nodes = vec![
        root(),
        folder("got", Some("root"), "Game of Thrones - Season 1"),
        video("e1", "got", "E01.mkv"),
    ];
    let found = ancestry(&nodes, &nodes[2]);
    assert_eq!(found.title.as_deref(), Some("Game of Thrones"));
    assert_eq!(found.season, Some(1));
}

#[test]
fn the_nearest_season_wins_and_a_walk_in_a_circle_ends() {
    let nodes = vec![
        root(),
        folder("a", Some("b"), "Season 02"),
        folder("b", Some("a"), "Season 05"),
        video("e", "a", "E01.mkv"),
    ];
    let found = ancestry(&nodes, &nodes[3]);
    assert_eq!(found.season, Some(2));
    assert_eq!(found.title, None);
}

#[test]
fn a_series_prefix_is_stripped_only_where_something_is_left() {
    assert_eq!(
        strip_prefix_title("Neon Genesis Evangelion - Death & Rebirth", "Neon Genesis Evangelion"),
        "Death & Rebirth"
    );
    assert_eq!(strip_prefix_title("Show - ", "Show"), "Show - ");
    assert_eq!(strip_prefix_title("Other", "Show"), "Other");
}
