use proton_stream::catalog::{CrawledKind, CrawledNode};
use proton_stream::config::{AppDirs, Stored};
use proton_stream::core_error::Error;
use proton_stream::shares::{
    add_order, loaded_secrets, remove_order, token_from_url, Crawl, Share, ShareSecrets,
    ShareStep, ShareStore, SharedLibrary,
};
use proton_stream::uid::NodeUid;

#[test]
fn a_share_url_yields_its_token() {
    assert_eq!(
        token_from_url("https://drive.proton.me/urls/ABC123#s3cr3t").unwrap(),
        "ABC123"
    );
}

#[test]
fn a_trailing_slash_before_the_fragment_is_tolerated() {
    assert_eq!(
        token_from_url("https://drive.proton.me/urls/ABC123/#s3cr3t").unwrap(),
        "ABC123"
    );
}

#[test]
fn a_url_without_a_fragment_is_refused_at_add_time() {
    let error = token_from_url("https://drive.proton.me/urls/ABC123").unwrap_err();
    assert!(
        error.message().contains("#password fragment"),
        "says what is missing: {}",
        error.message()
    );
}

#[test]
fn a_url_that_is_not_a_share_link_is_refused() {
    assert!(token_from_url("https://example.com/thing#x").is_err());
    assert!(token_from_url("https://drive.proton.me/urls/#s3cr3t").is_err());
}

#[test]
fn malformed_share_errors_never_repeat_the_secret_url_fragment() {
    const SECRET: &str = "fragment-secret-that-must-not-leak";
    for url in [
        format!("https://example.com/not-a-share#{SECRET}"),
        format!("https://drive.proton.me/urls/#{SECRET}"),
    ] {
        let error = token_from_url(&url).unwrap_err().message();
        assert!(
            !error.contains(SECRET),
            "error exposed URL fragment: {error}"
        );
        assert!(
            !error.contains(&url),
            "error repeated the full URL: {error}"
        );
    }
}

#[test]
fn the_share_id_carries_no_secret() {
    let token = token_from_url("https://drive.proton.me/urls/ABC123#s3cr3t").unwrap();
    let id = format!("share-{token}");
    assert!(!id.contains("s3cr3t"), "id must not embed the password");
}

#[test]
fn links_that_differ_only_in_their_fragment_have_one_token() {
    let a = token_from_url("https://drive.proton.me/urls/T?x=1#one").unwrap();
    let b = token_from_url("https://drive.proton.me/urls/T?x=1#another").unwrap();
    assert_eq!(a, "T");
    assert_eq!(a, b);
}

#[test]
fn each_fault_of_a_url_has_its_own_message() {
    assert_eq!(
        token_from_url("https://example.com/thing#x"),
        Err(Error::Config("not a Proton share URL".into()))
    );
    assert_eq!(
        token_from_url("https://drive.proton.me/urls/#s3cr3t"),
        Err(Error::Config("Proton share URL carries no share token".into()))
    );
    assert_eq!(
        token_from_url("https://drive.proton.me/urls/ABC"),
        Err(Error::Config(
            "Proton share URL has no #password fragment; copy the full share link".into()
        ))
    );
}

fn store() -> ShareStore {
    ShareStore::new(AppDirs::from_paths("/c".into(), "/d".into(), "/k".into()))
}

#[test]
fn an_added_share_is_listed_without_its_secrets() {
    let store = store();
    let url = "https://drive.proton.me/urls/ABC123#s3cr3t";
    let added = store.add(Vec::new(), "anime", url, Some("open sesame")).unwrap();
    assert_eq!(
        added.share,
        Share {
            id: "share-ABC123".into(),
            name: "anime".into(),
            token: "ABC123".into(),
            has_custom_password: true,
        }
    );
    assert_eq!(
        added.secrets,
        ShareSecrets {
            url: url.into(),
            custom_password: Some("open sesame".into()),
        }
    );
    assert_eq!(added.shares, vec![added.share.clone()]);

    // An empty password is none.
    let plain = store.add(Vec::new(), "anime", url, Some("")).unwrap();
    assert!(!plain.share.has_custom_password);
    assert_eq!(plain.secrets.custom_password, None);
}

#[test]
fn a_share_is_configured_once_and_removing_it_undoes_adding_it() {
    let store = store();
    let url = "https://drive.proton.me/urls/ABC123#s3cr3t";
    let added = store.add(Vec::new(), "anime", url, None).unwrap();
    assert_eq!(
        store.add(added.shares.clone(), "again", url, None).unwrap_err(),
        Error::Config("a share for token ABC123 is already configured".into())
    );
    assert_eq!(
        store.remove(added.shares.clone(), "share-XYZ").unwrap_err(),
        Error::NotFound("no share with id share-XYZ".into())
    );
    assert_eq!(store.remove(added.shares, "share-ABC123").unwrap(), Vec::new());
    assert!(store.add(Vec::new(), "bad", "https://example.com", None).is_err());
}

#[test]
fn a_share_list_that_will_not_parse_is_not_an_empty_one() {
    let store = store();
    assert_eq!(store.file().parts, vec!["shares.json"]);
    assert_eq!(store.list("shares.json", Stored::Missing).unwrap(), Vec::new());
    assert!(store
        .list("shares.json", Stored::Invalid("eof".into()))
        .is_err());
}

#[test]
fn secrets_come_before_the_list_and_leave_after_it() {
    assert_eq!(add_order(), vec![ShareStep::StoreSecrets, ShareStep::WriteList]);
    assert_eq!(remove_order(), vec![ShareStep::WriteList, ShareStep::DeleteSecrets]);
}

#[test]
fn missing_and_unreadable_secrets_are_told_apart() {
    assert_eq!(
        loaded_secrets("share-a", None).unwrap_err().message(),
        "share share-a has no stored credentials; remove and re-add it"
    );
    assert_eq!(
        loaded_secrets("share-a", Some(Err("eof".into()))).unwrap_err().message(),
        "config: stored share secrets are unreadable: eof"
    );
    let secrets = ShareSecrets {
        url: "u".into(),
        custom_password: None,
    };
    assert!(loaded_secrets("share-a", Some(Ok(secrets))).is_ok());
}

fn share(id: &str) -> Share {
    Share {
        id: id.into(),
        name: id.into(),
        token: id.into(),
        has_custom_password: false,
    }
}

#[test]
fn a_share_that_fails_to_open_does_not_fail_the_others() {
    let (library, failures) = SharedLibrary::open_all(vec![
        (share("b"), Ok(2)),
        (share("broken"), Err(Error::Drive("revoked".into()))),
        (share("a"), Ok(1)),
    ]);
    assert_eq!(library.client("a"), Some(&1));
    assert_eq!(library.client("b"), Some(&2));
    assert_eq!(library.client("broken"), None);
    assert_eq!(library.share_ids(), vec!["a", "b"]);
    assert_eq!(failures.len(), 1);
    assert_eq!(failures[0].0.id, "broken");
    assert_eq!(failures[0].1, Error::Drive("revoked".into()));
    assert_eq!(
        library.open_client("broken"),
        Err(Error::NotFound("share broken is not open".into()))
    );
    assert_eq!(library.open_client("a"), Ok(&1));
}

fn node(link: &str, folder: bool) -> CrawledNode {
    CrawledNode {
        uid: NodeUid {
            volume_id: "vol".into(),
            link_id: link.into(),
        },
        parent_uid: None,
        name: link.into(),
        kind: if folder {
            CrawledKind::Folder
        } else {
            CrawledKind::File {
                media_type: "video/mp4".into(),
                claimed_size: None,
                active_revision_id: None,
            }
        },
    }
}

#[test]
fn a_crawl_visits_every_folder_once_depth_first() {
    let mut crawl = Crawl::begin(node("root", true));
    let mut asked = Vec::new();
    while let Some(folder) = crawl.next_folder() {
        asked.push(folder.link_id.clone());
        let children = match folder.link_id.as_str() {
            "root" => vec![node("a", true), node("x", false), node("b", true)],
            "b" => vec![node("y", false), node("c", true)],
            _ => Vec::new(),
        };
        crawl.children(children);
    }
    assert_eq!(asked, vec!["root", "b", "c", "a"]);
    let found: Vec<String> = crawl.finish().into_iter().map(|n| n.name).collect();
    assert_eq!(found, vec!["root", "a", "x", "b", "y", "c"]);
}

#[test]
fn a_marker_inside_the_fragment_is_part_of_the_password() {
    for url in ["a#/urls/k", "https://example.com/#/urls/s3cr3t", "#/urls/s3cr3t"] {
        assert_eq!(
            token_from_url(url),
            Err(Error::Config("not a Proton share URL".into())),
            "{url}"
        );
    }
    assert_eq!(
        token_from_url("https://drive.proton.me/urls/T#/urls/s3cr3t").unwrap(),
        "T"
    );
}
