use proton_stream::config::{read_json, replaceable, temp_name, write_order, AppDirs, Stored, WriteStep};
use proton_stream::core_error::Error;

fn dirs() -> AppDirs {
    AppDirs::from_paths("/c".into(), "/d".into(), "/k".into())
}

#[test]
fn a_missing_config_reads_as_none() {
    let read: Result<Option<u32>, Error> = read_json("absent.json", Stored::Missing);
    assert_eq!(read, Ok(None));
}

#[test]
fn an_unparseable_config_is_an_error_and_not_an_empty_one() {
    let read: Result<Option<u32>, Error> =
        read_json("/c/broken.json", Stored::Invalid("key must be a string".into()));
    let error = read.unwrap_err();
    assert_eq!(
        error.message(),
        "config: /c/broken.json is not valid config: key must be a string"
    );
}

#[test]
fn a_config_that_is_there_reads_as_what_it_holds() {
    assert_eq!(read_json("sample.json", Stored::Found(42)), Ok(Some(42)));
    assert_eq!(
        read_json::<u32>("sample.json", Stored::Unreadable("permission denied".into())),
        Err(Error::Io("permission denied".into()))
    );
}

#[test]
fn a_write_is_renamed_into_place_only_once_it_is_synced() {
    assert_eq!(
        write_order(),
        vec![
            WriteStep::CreateDirectory,
            WriteStep::CreateAside,
            WriteStep::WriteAside,
            WriteStep::SyncAside,
            WriteStep::Rename,
            WriteStep::SyncDirectory,
        ]
    );
    assert_eq!(temp_name(Some("shares.json")), ".shares.json.tmp");
    assert_eq!(temp_name(None), ".config.tmp");
}

#[test]
fn everything_has_its_place_below_the_directory_it_belongs_in() {
    let dirs = dirs();
    assert_eq!(dirs.to_create(), vec!["/c", "/d", "/k"]);
    let places = [
        (dirs.shares_file(), "/c", "shares.json"),
        (dirs.appearance_file(), "/c", "appearance.json"),
        (dirs.prefs_file(), "/c", "playback.json"),
        (dirs.settings_file(), "/c", "metadata.json"),
        (dirs.catalog_db(), "/d", "catalog.db"),
        (dirs.offline_content(), "/d", "offline"),
        (dirs.block_cache(), "/k", "blocks"),
        (dirs.thumbnail_cache(), "/k", "thumbs"),
        (dirs.poster_cache(), "/k", "posters"),
    ];
    for (place, base, name) in places {
        assert_eq!(place.base, base);
        assert_eq!(place.parts, vec![name]);
    }
}

/// The digest is of the three parts with a zero byte between them.
#[test]
fn an_offline_file_is_named_by_the_digest_of_what_it_is() {
    let place = dirs().offline_file("share", "link", "rev");
    assert_eq!(place.base, "/d");
    assert_eq!(place.parts.len(), 2);
    assert_eq!(place.parts[0], "offline");
    let name = &place.parts[1];
    assert_eq!(
        name,
        "657f30fa795bd967f09b6807f5292cbb92a0e2c0129ff3eb85619451cdcd1037.media"
    );
    assert!(!name.contains("share") && !name.contains("link"));

    let other = dirs().offline_file("share", "link", "rev2");
    assert_ne!(other.parts[1], place.parts[1]);
    // The parts are kept apart: moving a boundary names another file.
    let moved = dirs().offline_file("shar", "elink", "rev");
    assert_ne!(moved.parts[1], place.parts[1]);
}

#[test]
fn a_config_that_would_not_parse_is_never_written_over() {
    assert_eq!(replaceable::<u32>("/c/a.json", &Stored::Missing), Ok(()));
    assert_eq!(replaceable("/c/a.json", &Stored::Found(42)), Ok(()));
    assert_eq!(
        replaceable::<u32>("/c/a.json", &Stored::Invalid("expected value".into())),
        Err(Error::Config("/c/a.json is not valid config: expected value".into()))
    );
    assert_eq!(
        replaceable::<u32>("/c/a.json", &Stored::Unreadable("permission denied".into())),
        Err(Error::Io("permission denied".into()))
    );
}

#[test]
fn files_kept_of_two_revisions_lie_apart() {
    let dirs = dirs();
    let place = |share: &str, link: &str, revision: &str| {
        dirs.offline_file(share, link, revision).parts[1].clone()
    };
    let one = place("share", "link", "rev1");
    assert_eq!(one, place("share", "link", "rev1"));
    assert_ne!(one, place("share", "link", "rev2"));
    // The same letters, cut in other places.
    assert_ne!(place("ab", "c", "d"), place("a", "bc", "d"));
    assert_ne!(place("a", "bc", "d"), place("a", "b", "cd"));
}
