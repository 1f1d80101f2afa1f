use redirects::rules::{RedirectsMap, RedirectsSource};
use redirects::server::{InitError, RedirectServer};
use redirects::validate::ValidationBehaviors;

fn source(origin: &str, contents: &str) -> RedirectsSource {
    RedirectsSource {
        origin: origin.as_bytes().to_vec(),
        contents: contents.as_bytes().to_vec(),
    }
}

fn compile_server(rules: &str, default: u16) -> (RedirectsMap, RedirectServer) {
    let map = RedirectsMap::build(&vec![], &vec![source("rules", rules)], default, &ValidationBehaviors::default())
        .unwrap();
    let artifacts = map.encode().unwrap();
    let dictionary = fcsd::Set::deserialize_from(&artifacts.targets[..]).unwrap();
    let server = RedirectServer::new(artifacts.sources, dictionary, default).unwrap();
    (map, server)
}

#[test]
fn round_trip_every_source() {
    let rules = "/a /shared 301\n/b /shared 301\n/c /its-own\n/d https://example.org/x 307\n/e /shared";
    let (map, server) = compile_server(rules, 302);

    for from in ["/a", "/b", "/c", "/d", "/e"] {
        let entry = map.get(from.as_bytes()).unwrap();
        let response = server.handle(from.as_bytes());
        assert_eq!(response.status_code, entry.status_code, "status for {from}");
        assert_eq!(response.location.as_ref().unwrap(), &entry.to, "target for {from}");
    }
}

#[test]
fn server_hit_and_miss() {
    let (_map, server) = compile_server("/a /b 301", 302);

    let hit = server.handle(b"/a");
    assert_eq!(hit.status_code, 301);
    assert_eq!(hit.location.unwrap(), b"/b");

    let miss = server.handle(b"/missing");
    assert_eq!(miss.status_code, 404);
    assert!(miss.location.is_none());
}

#[test]
fn default_status_needs_no_suffix() {
    let (_map, server) = compile_server("/plain /target", 302);
    let hit = server.handle(b"/plain");
    assert_eq!(hit.status_code, 302);
    assert_eq!(hit.location.unwrap(), b"/target");
}

#[test]
fn artifacts_survive_serialization() {
    // The index artifact loads through the fst crate directly, and every
    // key resolves to a rank the dictionary can decode.
    let (map, _server) = compile_server("/x /y 308\n/y /z 308", 302);
    let artifacts = map.encode().unwrap();

    let index = fst::Map::new(artifacts.sources.clone()).unwrap();
    // After shortening, /x and /y both point at /z with status 308.
    assert_eq!(index.len(), 2);
    let dictionary = fcsd::Set::deserialize_from(&artifacts.targets[..]).unwrap();
    let rank = index.get(b"/x").unwrap() as usize;
    assert_eq!(dictionary.decoder().run(rank), b"/z 308".to_vec());
}

#[test]
fn server_rejects_bad_default_status() {
    let result = RedirectServer::new(Vec::new(), fcsd::Set::new(["x"]).unwrap(), 200);
    assert!(matches!(result, Err(InitError::InvalidStatusCode)));
}

#[test]
fn server_rejects_invalid_index_bytes() {
    let result = RedirectServer::new(vec![1, 2, 3], fcsd::Set::new(["x"]).unwrap(), 302);
    assert!(matches!(result, Err(InitError::InvalidIndex)));
}

#[test]
fn rejected_status_code_stays_out_of_artifacts() {
    // Under a warning policy the bad line is recorded and dropped, and the
    // rest of the build goes through.
    let behaviors = ValidationBehaviors {
        invalid_lines: redirects::validate::ValidationBehavior::Warn,
        ..Default::default()
    };
    let map = RedirectsMap::build(
        &vec![],
        &vec![source("rules", "/source /target 200\n/kept /fine")],
        302,
        &behaviors,
    )
    .unwrap();
    let artifacts = map.encode().unwrap();
    let dictionary = fcsd::Set::deserialize_from(&artifacts.targets[..]).unwrap();
    let server = RedirectServer::new(artifacts.sources, dictionary, 302).unwrap();
    assert!(!map.contains_key(b"/source"));
    let miss = server.handle(b"/source");
    assert_eq!(miss.status_code, 404);
    assert!(miss.location.is_none());
}

#[test]
fn build_request_url_joins_segments() {
    let url = redirects::server::build_request_url("origin-a", "some/path");
    assert_eq!(url, "/origin-a/some/path");
}

#[test]
fn encode_refuses_empty_map() {
    let map = RedirectsMap::new(302);
    assert!(matches!(map.encode(), Err(redirects::encode::EncodeError::EmptyMap)));
}

#[test]
fn from_map_serves_without_touching_disk() {
    let map = RedirectsMap::build(
        &vec![],
        &vec![source("rules", "/a /b 301\n/c /d")],
        302,
        &ValidationBehaviors::default(),
    )
    .unwrap();
    let server = RedirectServer::from_map(&map).unwrap();
    let hit = server.handle(b"/a");
    assert_eq!(hit.status_code, 301);
    assert_eq!(hit.location.unwrap(), b"/b");
    let other = server.handle(b"/c");
    assert_eq!(other.status_code, 302);
    assert_eq!(other.location.unwrap(), b"/d");
}

#[test]
fn load_reads_both_artifacts() {
    let map = RedirectsMap::build(
        &vec![],
        &vec![source("rules", "/x /y 307")],
        302,
        &ValidationBehaviors::default(),
    )
    .unwrap();
    let artifacts = map.encode().unwrap();
    let server = RedirectServer::load(artifacts.sources, &artifacts.targets, 302).unwrap();
    let hit = server.handle(b"/x");
    assert_eq!(hit.status_code, 307);
    assert_eq!(hit.location.unwrap(), b"/y");
}
