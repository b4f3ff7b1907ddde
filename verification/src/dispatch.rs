//! The request dispatcher.
//!
//! One dispatcher instance serves one origin. A request runs through the
//! fixed pipeline: count the request, sanitize the path, divert
//! `README.md`, look up the cache (counting a hit) or have the caller
//! fetch upstream and commit the body, then resolve an optional `Range`
//! header into the response. The caller performs the two outside effects —
//! the upstream GET and the README file read — between these steps and
//! hands the resulting bytes back in; every decision in between is made
//! here.

use vstd::prelude::*;
use crate::cache::LogCache;
use crate::cache::get_model;
use crate::cache::lookup_key;
use crate::cache::put_model;
use crate::cache::lemma_get_after_put;
use crate::response::HttpResponse;
use crate::response::render_response;
use crate::response::not_found_response;
use crate::response::spec_response;
use crate::response::spec_status_response;
use crate::sanitize::sanitize_path;
use crate::sanitize::spec_sanitize;
use crate::stats::LogStats;
use crate::stats::sat_plus;

verus! {

/// The sanitized path that diverts to the local README file.
pub open spec fn readme_key() -> Seq<char> {
    seq!['R', 'E', 'A', 'D', 'M', 'E', '.', 'm', 'd']
}

/// Where a request goes after sanitization.
#[derive(Clone, Debug, PartialEq, Eq)]
pub enum RouteDecision {
    /// The path sanitized to the invalid sentinel: answer 400.
    BadRequest,
    /// The path is exactly `README.md`: serve the local file, bypassing
    /// cache and upstream entirely.
    Readme,
    /// An object request; holds the cache and upstream key.
    Tile(String),
}

/// The dispatcher's first step: count the request — before any other
/// work, unconditionally — and sanitize the path.
pub fn route_request(raw_path: &str, stats: &mut LogStats) -> (r: RouteDecision)
    ensures
        final(stats).request_count == sat_plus(old(stats).request_count, 1),
        final(stats).bytes_served == old(stats).bytes_served,
        final(stats).cache_hits == old(stats).cache_hits,
        ({
            let key = spec_sanitize(raw_path@);
            match r {
                RouteDecision::BadRequest => key.len() == 0,
                RouteDecision::Readme => key == readme_key(),
                RouteDecision::Tile(k) => k@ == key && key.len() > 0 && key != readme_key(),
            }
        }),
{
    stats.record_request();
    let key = sanitize_path(raw_path);
    if key.unicode_len() == 0 {
        return RouteDecision::BadRequest;
    }
    let readme = String::from_str("README.md");
    proof {
        reveal_strlit("README.md");
        assert(readme@ =~= readme_key());
    }
    if key == readme {
        RouteDecision::Readme
    } else {
        RouteDecision::Tile(key)
    }
}

/// The dispatcher's cache step: look up the key, marking it most recently
/// used and counting a cache hit. `None` obliges the caller to fetch the
/// object upstream and commit it.
pub fn lookup_tile(cache: &mut LogCache, stats: &mut LogStats, key: &str) -> (r: Option<Vec<u8>>)
    requires
        old(cache).wf(),
    ensures
        final(cache).wf(),
        final(cache).entries() == get_model(old(cache).entries(), key@),
        final(stats).request_count == old(stats).request_count,
        final(stats).bytes_served == old(stats).bytes_served,
        match r {
            Some(v) => old(cache).spec_lookup(key@) == Some(v@) && final(stats).cache_hits
                == sat_plus(old(stats).cache_hits, 1),
            None => old(cache).spec_lookup(key@) is None && final(stats).cache_hits == old(
                stats,
            ).cache_hits,
        },
{
    let r = cache.get(key);
    match r {
        Some(body) => {
            stats.record_cache_hit();
            Some(body)
        },
        None => None,
    }
}

/// The commit step after a successful upstream fetch: the whole buffered
/// body is stored under the sanitized path — all or nothing, and only
/// after the full body is in memory — and handed back for serving.
pub fn commit_fetched_body(cache: &mut LogCache, key: String, body: Vec<u8>) -> (r: Vec<u8>)
    requires
        old(cache).wf(),
    ensures
        final(cache).wf(),
        final(cache).entries() == put_model(
            old(cache).entries(),
            crate::cache::CACHE_CAPACITY as nat,
            key@,
            body@,
        ),
        final(cache).spec_lookup(key@) == Some(body@),
        r@ == body@,
{
    let copy = crate::response::copy_slice(&body, 0, body.len());
    proof {
        assert(copy@ =~= body@);
        lemma_get_after_put(
            old(cache).entries(),
            crate::cache::CACHE_CAPACITY as nat,
            key@,
            body@,
        );
    }
    cache.put(key, copy);
    body
}

/// The README divert: serves the local `README.md` bytes — read by the
/// caller, which alone touches the file system; cache and upstream are
/// never involved — through the same range resolver, tagged
/// `text/markdown; charset=UTF-8` and counted as served from cache. An
/// unreadable file is 404.
pub fn handle_readme(body: Option<Vec<u8>>, range: Option<&str>, stats: &mut LogStats) -> (r:
    HttpResponse)
    ensures
        final(stats).request_count == old(stats).request_count,
        final(stats).cache_hits == old(stats).cache_hits,
        match body {
            Some(b) => r@ == spec_response(
                b@,
                match range {
                    Some(h) => Some(h@),
                    None => None,
                },
                true,
                true,
            ) && final(stats).bytes_served == sat_plus(
                old(stats).bytes_served,
                r@.body.len() as u64,
            ),
            None => r@ == spec_status_response(404) && *final(stats) == *old(stats),
        },
{
    match body {
        Some(b) => render_response(b, range, true, true, stats),
        None => not_found_response(),
    }
}

/// Law: a second GET of the same path is served from the cache with the
/// very bytes the first request's fetch committed — the first full
/// response carries the body with `X-Cache: MISS`, the second the same
/// body with `X-Cache: HIT`.
pub proof fn lemma_second_get_identical(
    es: Seq<(Seq<char>, Seq<u8>)>,
    cap: nat,
    k: Seq<char>,
    b: Seq<u8>,
)
    ensures
        lookup_key(put_model(es, cap, k, b), k) == Some(b),
        spec_response(b, None, false, false).body == spec_response(b, None, true, false).body,
        spec_response(b, None, false, false).x_cache == Some(false),
        spec_response(b, None, true, false).x_cache == Some(true),
{
    lemma_get_after_put(es, cap, k, b);
}

/// Strips every trailing `c` from `s`.
pub open spec fn strip_trailing(s: Seq<char>, c: char) -> Seq<char>
    decreases s.len(),
{
    if s.len() > 0 && s.last() == c {
        strip_trailing(s.drop_last(), c)
    } else {
        s
    }
}

/// Strips every leading `c` from `s`.
pub open spec fn strip_leading(s: Seq<char>, c: char) -> Seq<char>
    decreases s.len(),
{
    if s.len() > 0 && s[0] == c {
        strip_leading(s.skip(1), c)
    } else {
        s
    }
}

/// The absolute upstream URL: base and path joined with exactly one `/`.
pub open spec fn spec_target_url(base: Seq<char>, path: Seq<char>) -> Seq<char> {
    strip_trailing(base, '/') + seq!['/'] + strip_leading(path, '/')
}

proof fn lemma_strip_trailing_scan(s: Seq<char>, e: int)
    requires
        0 <= e <= s.len(),
        forall|k: int| e <= k < s.len() ==> s[k] == '/',
        e == 0 || s[e - 1] != '/',
    ensures
        strip_trailing(s, '/') == s.take(e),
    decreases s.len(),
{
    if s.len() > e {
        lemma_strip_trailing_scan(s.drop_last(), e);
        assert(s.drop_last().take(e) =~= s.take(e));
    } else {
        assert(s.take(e) =~= s);
    }
}

proof fn lemma_strip_leading_scan(s: Seq<char>, b: int)
    requires
        0 <= b <= s.len(),
        forall|k: int| 0 <= k < b ==> s[k] == '/',
        b == s.len() || s[b] != '/',
    ensures
        strip_leading(s, '/') == s.skip(b),
    decreases b,
{
    if b > 0 {
        lemma_strip_leading_scan(s.skip(1), b - 1);
        assert(s.skip(1).skip(b - 1) =~= s.skip(b));
    } else {
        assert(s.skip(0) =~= s);
    }
}

/// Builds the upstream URL for a sanitized path: the origin's base URL
/// and the path, joined with exactly one separating `/`.
pub fn build_target_url(base: &str, path: &str) -> (r: String)
    ensures
        r@ == spec_target_url(base@, path@),
{
    let nb = base.unicode_len();
    let mut e = nb;
    while e > 0 && base.get_char(e - 1) == '/'
        invariant
            e <= nb,
            nb == base@.len(),
            forall|k: int| e <= k < nb ==> base@[k] == '/',
        decreases e,
    {
        e = e - 1;
    }
    let np = path.unicode_len();
    let mut b: usize = 0;
    while b < np && path.get_char(b) == '/'
        invariant
            b <= np,
            np == path@.len(),
            forall|k: int| 0 <= k < b ==> path@[k] == '/',
        decreases np - b,
    {
        b = b + 1;
    }
    let mut url = String::from_str(base.substring_char(0, e));
    url.append("/");
    url.append(path.substring_char(b, np));
    proof {
        lemma_strip_trailing_scan(base@, e as int);
        lemma_strip_leading_scan(path@, b as int);
        reveal_strlit("/");
        assert(base@.subrange(0, e as int) =~= base@.take(e as int));
        assert(path@.subrange(b as int, np as int) =~= path@.skip(b as int));
        assert(url@ =~= spec_target_url(base@, path@));
    }
    url
}

} // verus!
