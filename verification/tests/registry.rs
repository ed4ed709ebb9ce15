use proton_stream::registry::{parse_url, StreamRegistry, PROTOCOL};



#[test]
fn a_published_stream_is_reachable_through_its_url() {
    let mut registry: StreamRegistry<&str> = StreamRegistry::new();
    let handle = registry.publish("a stream");

    let id = parse_url(&handle.url()).expect("url parses");
    assert_eq!(id, handle.id());
    assert!(registry.lookup(id).is_some());
}

#[test]
fn dropping_the_handle_revokes_the_url() {
    let mut registry: StreamRegistry<&str> = StreamRegistry::new();
    let handle = registry.publish("a stream");
    let id = parse_url(&handle.url()).expect("url parses");
    registry.revoke(handle);

    assert!(registry.lookup(id).is_none());
    assert!(registry.is_empty());
}

#[test]
fn two_streams_get_distinct_urls() {
    let mut registry: StreamRegistry<&str> = StreamRegistry::new();
    let first = registry.publish("a stream");
    let second = registry.publish("a stream");

    assert_ne!(first.url(), second.url());
    assert_eq!(registry.len(), 2);
}

#[test]
fn a_token_is_never_reused_after_the_stream_behind_it_is_gone() {
    // Otherwise a stale URL — mpv retrying a load, a playlist entry — would
    // silently start playing whatever took the number over.
    let mut registry: StreamRegistry<&str> = StreamRegistry::new();
    let first = registry.publish("a stream");
    let first_url = first.url();
    registry.revoke(first);
    let second = registry.publish("a stream");

    assert_ne!(first_url, second.url());
    assert!(registry.lookup(parse_url(&first_url).unwrap()).is_none());
}

#[test]
fn only_well_formed_pstr_urls_parse() {
    assert_eq!(parse_url("pstr://12"), Some(12));
    assert_eq!(parse_url("pstr://12/"), Some(12));
    assert_eq!(parse_url("pstr://"), None);
    assert_eq!(parse_url("pstr://abc"), None);
    assert_eq!(parse_url("pstr://12/extra"), None);
    assert_eq!(parse_url("file:///tmp/a.mkv"), None);
    assert_eq!(parse_url("pstr:12"), None);
}

#[test]
fn a_url_is_the_protocol_and_the_token() {
    let mut registry: StreamRegistry<u8> = StreamRegistry::new();
    let handle = registry.publish(7);
    assert_eq!(handle.url(), format!("{PROTOCOL}://{}", handle.id()));
    assert_eq!(registry.lookup(handle.id()), Some(&7));
    assert_eq!(parse_url("pstr://18446744073709551615"), Some(u64::MAX));
    assert_eq!(parse_url("pstr://18446744073709551616"), None);
}

#[test]
fn a_url_that_was_never_given_out_is_a_miss() {
    for uri in [
        "pstr://+12",
        "pstr://012",
        "pstr://00",
        "pstr://-1",
        "pstr:// 12",
        "pstr://12 ",
        "pstr://12//",
        "pstr:///",
        "PSTR://12",
    ] {
        assert_eq!(parse_url(uri), None, "{uri}");
    }
    assert_eq!(parse_url("pstr://0"), Some(0));
    assert_eq!(parse_url("pstr://0/"), Some(0));
    assert_eq!(parse_url("pstr://18446744073709551615/"), Some(u64::MAX));
}

#[test]
fn no_token_comes_back_whatever_is_published_and_revoked() {
    let mut registry: StreamRegistry<u32> = StreamRegistry::new();
    let mut given = Vec::new();
    let mut kept = Vec::new();
    for n in 0..20 {
        let handle = registry.publish(n);
        assert!(!given.contains(&handle.id()), "{} came back", handle.id());
        given.push(handle.id());
        if n % 3 == 0 {
            kept.push((handle.id(), n));
        } else {
            registry.revoke(handle);
            assert_eq!(registry.lookup(handle.id()), None);
        }
    }
    assert_eq!(registry.len(), kept.len());
    for (id, n) in kept {
        assert_eq!(registry.lookup(id), Some(&n));
    }
}
