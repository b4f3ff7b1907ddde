use heliostat::cache::LogCache;
use heliostat::dispatch::RouteDecision;
use heliostat::dispatch::build_target_url;
use heliostat::dispatch::commit_fetched_body;
use heliostat::dispatch::handle_readme;
use heliostat::dispatch::lookup_tile;
use heliostat::dispatch::route_request;
use heliostat::range::parse_range_header;
use heliostat::response::CacheStatus;
use heliostat::response::bad_gateway_response;
use heliostat::response::bad_request_response;
use heliostat::response::not_found_response;
use heliostat::response::render_response;
use heliostat::sanitize::sanitize_path;
use heliostat::numfmt::format_bytes;
use heliostat::numfmt::format_number;
use heliostat::stats::LogStats;

fn tile_body() -> Vec<u8> {
    (0u32..100).map(|i| (i % 251) as u8).collect()
}

#[test]
fn test_sanitize_plain_paths() {
    assert_eq!(sanitize_path("torrent/tile/data/000"), "tile/data/000");
    assert_eq!(sanitize_path("torrent/a"), "a");
    assert_eq!(sanitize_path("torrent/a//b"), "a/b");
    assert_eq!(sanitize_path("torrent/a/./b"), "a/b");
    assert_eq!(sanitize_path("torrent/a/b/"), "a/b");
}

#[test]
fn test_sanitize_rejects_traversal() {
    assert_eq!(sanitize_path("torrent/../etc/passwd"), "");
    assert_eq!(sanitize_path("torrent/a/../b"), "");
    assert_eq!(sanitize_path("torrent/a/b/.."), "");
    assert_eq!(sanitize_path("torrent//etc/passwd"), "");
    assert_eq!(sanitize_path("torrent/./a"), "");
    assert_eq!(sanitize_path("torrent/."), "");
    assert_eq!(sanitize_path("torrent/"), "");
    assert_eq!(sanitize_path("torrent"), "");
    assert_eq!(sanitize_path(""), "");
}

#[test]
fn test_parse_range_header_forms() {
    assert_eq!(parse_range_header("bytes=10-50", 100), Some((10, 51)));
    assert_eq!(parse_range_header("bytes=0-0", 100), Some((0, 1)));
    assert_eq!(parse_range_header("bytes=10-", 100), Some((10, 100)));
    assert_eq!(parse_range_header("bytes=50-20", 100), Some((50, 21)));
    assert_eq!(parse_range_header("invalid-range-format", 100), None);
    assert_eq!(parse_range_header("bytes=10-20-30", 100), None);
    assert_eq!(parse_range_header("bytes=-10", 100), None);
    assert_eq!(parse_range_header("bytes=a-b", 100), None);
    assert_eq!(parse_range_header("bytes=10", 100), None);
    assert_eq!(parse_range_header("bytes=", 100), None);
    assert_eq!(parse_range_header("", 100), None);
    // numbers that do not fit usize fail to parse
    assert_eq!(parse_range_header("bytes=99999999999999999999-", 100), None);
    assert_eq!(
        parse_range_header("bytes=18446744073709551615-", 5),
        Some((usize::MAX, 5))
    );
    assert_eq!(parse_range_header("bytes=1-18446744073709551615", 5), None);
}

#[test]
fn test_proxy_full_file() {
    let mut cache = LogCache::new();
    let mut stats = LogStats::default();
    let body = tile_body();

    // first request: miss, fetch, commit, serve with X-Cache: MISS
    let r1 = route_request("test-torrent-name/tile/data/000", &mut stats);
    let key1 = match r1 {
        RouteDecision::Tile(k) => k,
        _ => panic!("expected a tile route"),
    };
    assert_eq!(key1, "tile/data/000");
    assert!(lookup_tile(&mut cache, &mut stats, &key1).is_none());
    let fetched = commit_fetched_body(&mut cache, key1.clone(), body.clone());
    let resp1 = render_response(fetched, None, false, false, &mut stats);
    assert_eq!(resp1.status, 200);
    assert_eq!(resp1.x_cache, Some(CacheStatus::Miss));
    assert!(!resp1.body.is_empty());

    // second request: hit, identical bytes, X-Cache: HIT
    let r2 = route_request("test-torrent-name/tile/data/000", &mut stats);
    let key2 = match r2 {
        RouteDecision::Tile(k) => k,
        _ => panic!("expected a tile route"),
    };
    let cached = lookup_tile(&mut cache, &mut stats, &key2).expect("second lookup must hit");
    let resp2 = render_response(cached, None, true, false, &mut stats);
    assert_eq!(resp2.status, 200);
    assert_eq!(resp2.x_cache, Some(CacheStatus::Hit));
    assert_eq!(resp2.body, resp1.body);
}

#[test]
fn test_proxy_range_request() {
    let mut stats = LogStats::default();
    let body = tile_body();
    let (range_start, range_end) = (10usize, 50usize);
    let header = format!("bytes={}-{}", range_start, range_end);
    let resp = render_response(body.clone(), Some(&header), true, false, &mut stats);
    assert_eq!(resp.status, 206);
    assert_eq!(resp.x_cache, Some(CacheStatus::Hit));
    let expected_range = format!("bytes {}-{}/{}", range_start, range_end, body.len());
    assert_eq!(resp.content_range, Some(expected_range));
    assert_eq!(&resp.body[..], &body[range_start..=range_end]);
    assert_eq!(resp.content_length, Some(41));
    assert_eq!(stats.bytes_served, 41);
}

fn invalid_range_test(body: &[u8], start: usize, end: usize) {
    let mut stats = LogStats::default();
    let header = format!("bytes={}-{}", start, end);
    let resp = render_response(body.to_vec(), Some(&header), true, false, &mut stats);
    assert_eq!(resp.status, 416);
    assert!(resp.body.is_empty());
    assert_eq!(resp.x_cache, None);
    assert_eq!(resp.content_range, None);
    assert_eq!(stats.bytes_served, 0);
}

#[test]
fn test_proxy_invalid_range_start_too_large() {
    let body = tile_body();
    let sz = body.len();
    invalid_range_test(&body, sz + 10, sz + 20);
}

#[test]
fn test_proxy_invalid_range_start_greater_than_end() {
    let body = tile_body();
    invalid_range_test(&body, 50, 20);
}

#[test]
fn test_proxy_range_end_too_large() {
    let body = tile_body();
    let sz = body.len();
    invalid_range_test(&body, 10, sz + 100);
}

#[test]
fn test_proxy_malformed_range_header() {
    let mut stats = LogStats::default();
    let body = tile_body();
    let full = render_response(body.clone(), None, true, false, &mut stats);
    let resp = render_response(body.clone(), Some("invalid-range-format"), true, false, &mut stats);
    assert_eq!(resp.status, 200);
    assert_eq!(resp.body.len(), full.body.len());
    assert_eq!(resp.body, full.body);
    assert_eq!(resp.content_length, Some(body.len()));
}

#[test]
fn test_no_range_request_handling() {
    let mut cache = LogCache::new();
    let mut stats = LogStats::default();
    let body = tile_body();
    let key = String::from("tile/data/000");
    let full = commit_fetched_body(&mut cache, key.clone(), body.clone());
    let full_resp = render_response(full, None, false, false, &mut stats);
    let cached = lookup_tile(&mut cache, &mut stats, &key).expect("must hit");
    let resp = render_response(cached, None, true, false, &mut stats);
    assert_eq!(resp.status, 200);
    assert_eq!(resp.x_cache, Some(CacheStatus::Hit));
    assert_eq!(resp.body, full_resp.body);
}

#[test]
fn test_readme_special_handling() {
    let mut stats = LogStats::default();
    let readme_content = b"This is a test README.".to_vec();

    let route = route_request("torrent-name/README.md", &mut stats);
    assert_eq!(route, RouteDecision::Readme);

    let resp = handle_readme(Some(readme_content.clone()), None, &mut stats);
    assert_eq!(resp.status, 200);
    assert!(resp.markdown);
    assert_eq!(resp.body, readme_content);
    assert_eq!(resp.x_cache, Some(CacheStatus::Hit));

    // a range applies to the README exactly as to a tile
    let part = handle_readme(Some(readme_content.clone()), Some("bytes=0-3"), &mut stats);
    assert_eq!(part.status, 206);
    assert!(part.markdown);
    assert_eq!(&part.body[..], &readme_content[0..=3]);

    // missing file: 404
    let missing = handle_readme(None, None, &mut stats);
    assert_eq!(missing.status, 404);
}

#[test]
fn test_error_responses() {
    let bad = bad_request_response();
    assert_eq!(bad.status, 400);
    assert!(bad.body.is_empty());
    let nf = not_found_response();
    assert_eq!(nf.status, 404);
    let gw = bad_gateway_response();
    assert_eq!(gw.status, 502);
    // an invalid path routes to 400
    let mut stats = LogStats::default();
    assert_eq!(
        route_request("torrent/../secret", &mut stats),
        RouteDecision::BadRequest
    );
    assert_eq!(route_request("no-slash", &mut stats), RouteDecision::BadRequest);
}

#[test]
fn test_eviction() {
    let mut cache = LogCache::new();
    for i in 0..1025u32 {
        let body: Vec<u8> = format!("body-{}", i).into_bytes();
        commit_fetched_body(&mut cache, format!("key/{:04}", i), body);
    }
    assert_eq!(cache.len(), 1024);
    let mut stats = LogStats::default();
    assert!(lookup_tile(&mut cache, &mut stats, "key/0000").is_none());
    for i in 1..1025u32 {
        let key = format!("key/{:04}", i);
        let got = lookup_tile(&mut cache, &mut stats, &key);
        assert_eq!(got, Some(format!("body-{}", i).into_bytes()));
    }
}

#[test]
fn test_lru_recency_order() {
    let mut cache = LogCache::new();
    let mut stats = LogStats::default();
    for i in 0..1024u32 {
        commit_fetched_body(&mut cache, format!("key/{:04}", i), vec![i as u8]);
    }
    // touch the oldest key, making it most recently used
    assert!(lookup_tile(&mut cache, &mut stats, "key/0000").is_some());
    // the next insert now evicts key 1, not key 0
    commit_fetched_body(&mut cache, String::from("fresh"), vec![42]);
    assert!(lookup_tile(&mut cache, &mut stats, "key/0000").is_some());
    assert!(lookup_tile(&mut cache, &mut stats, "key/0001").is_none());
}

#[test]
fn test_overwrite_same_key() {
    let mut cache = LogCache::new();
    let mut stats = LogStats::default();
    commit_fetched_body(&mut cache, String::from("k"), vec![1, 2, 3]);
    commit_fetched_body(&mut cache, String::from("k"), vec![4, 5]);
    assert_eq!(cache.len(), 1);
    assert_eq!(lookup_tile(&mut cache, &mut stats, "k"), Some(vec![4, 5]));
}

#[test]
fn test_stats_counters() {
    let mut cache = LogCache::new();
    let mut stats = LogStats::default();
    let body = vec![7u8; 64];

    // miss, then fetch and serve full
    let key = match route_request("t/a/b", &mut stats) {
        RouteDecision::Tile(k) => k,
        _ => panic!("expected a tile route"),
    };
    assert!(lookup_tile(&mut cache, &mut stats, &key).is_none());
    let fetched = commit_fetched_body(&mut cache, key.clone(), body.clone());
    let _ = render_response(fetched, None, false, false, &mut stats);

    // hit, then serve a range
    let key = match route_request("t/a/b", &mut stats) {
        RouteDecision::Tile(k) => k,
        _ => panic!("expected a tile route"),
    };
    let cached = lookup_tile(&mut cache, &mut stats, &key).expect("must hit");
    let _ = render_response(cached, Some("bytes=0-9"), true, false, &mut stats);

    assert_eq!(stats.request_count, 2);
    assert_eq!(stats.cache_hits, 1);
    assert_eq!(stats.bytes_served, 64 + 10);
    assert!(stats.cache_hits <= stats.request_count);
}

#[test]
fn test_format_number() {
    assert_eq!(format_number(0), "0");
    assert_eq!(format_number(7), "7");
    assert_eq!(format_number(999), "999");
    assert_eq!(format_number(1000), "1,000");
    assert_eq!(format_number(1234), "1,234");
    assert_eq!(format_number(1234567), "1,234,567");
    assert_eq!(format_number(1000000000), "1,000,000,000");
}

#[test]
fn test_format_bytes() {
    assert_eq!(format_bytes(0), "0 bytes");
    assert_eq!(format_bytes(512), "512 bytes");
    assert_eq!(format_bytes(1023), "1023 bytes");
    assert_eq!(format_bytes(1024), "1.00 KB");
    assert_eq!(format_bytes(1536), "1.50 KB");
    assert_eq!(format_bytes(10 * 1024), "10.00 KB");
    assert_eq!(format_bytes(1048571), "1024.00 KB");
    assert_eq!(format_bytes(1048576), "1.00 MB");
    assert_eq!(format_bytes(3 * 1024 * 1024 * 1024), "3.00 GB");
    assert_eq!(format_bytes(5 * 1024 * 1024 * 1024 * 1024), "5.00 TB");
}

#[test]
fn test_build_target_url() {
    assert_eq!(
        build_target_url("https://origin.example/", "tile/data/000"),
        "https://origin.example/tile/data/000"
    );
    assert_eq!(build_target_url("https://origin.example", "a"), "https://origin.example/a");
    assert_eq!(build_target_url("https://origin.example//", "//a"), "https://origin.example/a");
}

#[test]
fn test_content_range_on_open_ended_range() {
    let mut stats = LogStats::default();
    let body = tile_body();
    let resp = render_response(body.clone(), Some("bytes=90-"), false, false, &mut stats);
    assert_eq!(resp.status, 206);
    assert_eq!(resp.content_range, Some(String::from("bytes 90-99/100")));
    assert_eq!(&resp.body[..], &body[90..100]);
    assert_eq!(resp.x_cache, Some(CacheStatus::Miss));
}
