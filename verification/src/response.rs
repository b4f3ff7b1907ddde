//! Response construction: full-body, partial-content and error responses.
//!
//! A response is modelled down to the headers the proxy controls:
//! status, body, `Content-Length`, `Content-Range`, `X-Cache` and the
//! README `Content-Type` tag. The range resolver turns a parsed window
//! into 206 (with the exact slice) or 416 (empty body, no headers), and a
//! header that fails to parse falls back to the full 200 response.

use vstd::prelude::*;
use crate::numfmt::spec_dec;
use crate::numfmt::u64_to_dec;
use crate::range::all_digits;
use crate::range::digit_of;
use crate::range::digits_val;
use crate::range::is_digit;
use crate::range::lemma_dec_roundtrip;
use crate::range::parse_range_header;
use crate::range::spec_parse_range;
use crate::range::spec_range_prefix;
use crate::sanitize::lemma_find_char_scan;
use crate::stats::LogStats;
use crate::stats::sat_plus;

verus! {

/// Whether a response was served from the cache; rendered into the
/// `X-Cache: HIT|MISS` header.
#[derive(Clone, Copy, Debug, PartialEq, Eq, Structural)]
pub enum CacheStatus {
    Hit,
    Miss,
}

/// A response as the proxy core produces it. I/O layers translate this
/// into their own response type verbatim.
pub struct HttpResponse {
    pub status: u16,
    pub body: Vec<u8>,
    pub content_length: Option<usize>,
    pub content_range: Option<String>,
    pub x_cache: Option<CacheStatus>,
    /// True on README responses: `Content-Type: text/markdown; charset=UTF-8`.
    pub markdown: bool,
}

/// The mathematical shape of a response.
#[verifier::ext_equal]
pub struct SpecResponse {
    pub status: int,
    pub body: Seq<u8>,
    pub content_length: Option<int>,
    pub content_range: Option<Seq<char>>,
    /// `Some(true)` is `X-Cache: HIT`, `Some(false)` is `MISS`.
    pub x_cache: Option<bool>,
    pub markdown: bool,
}

impl View for HttpResponse {
    type V = SpecResponse;

    open spec fn view(&self) -> SpecResponse {
        SpecResponse {
            status: self.status as int,
            body: self.body@,
            content_length: match self.content_length {
                Some(n) => Some(n as int),
                None => None,
            },
            content_range: match self.content_range {
                Some(ref s) => Some(s@),
                None => None,
            },
            x_cache: match self.x_cache {
                Some(t) => Some(t == CacheStatus::Hit),
                None => None,
            },
            markdown: self.markdown,
        }
    }
}

/// The `Content-Range` header value `bytes <start>-<last>/<total>`.
pub open spec fn spec_content_range(start: int, last: int, total: int) -> Seq<char> {
    seq!['b', 'y', 't', 'e', 's', ' '] + spec_dec(start as nat) + seq!['-'] + spec_dec(
        last as nat,
    ) + seq!['/'] + spec_dec(total as nat)
}

/// The full-body 200 response.
pub open spec fn spec_full_response(body: Seq<u8>, hit: bool, markdown: bool) -> SpecResponse {
    SpecResponse {
        status: 200,
        body: body,
        content_length: Some(body.len() as int),
        content_range: None,
        x_cache: Some(hit),
        markdown: markdown,
    }
}

/// The 416 response: empty body, no `Content-Range`, no `X-Cache`.
pub open spec fn spec_range_not_satisfiable() -> SpecResponse {
    SpecResponse {
        status: 416,
        body: Seq::empty(),
        content_length: None,
        content_range: None,
        x_cache: None,
        markdown: false,
    }
}

/// A parsed window `[start, end)` is valid for a body of length `len` iff
/// it is non-empty and lies inside the body.
pub open spec fn spec_window_valid(start: usize, end: usize, len: int) -> bool {
    start < len && end <= len && start < end
}

/// The response to a body and an optional `Range` header: the exact slice
/// as 206 when the window is valid, 416 when it is parseable but out of
/// bounds, and the full 200 body when the header is absent or malformed.
pub open spec fn spec_response(
    body: Seq<u8>,
    range: Option<Seq<char>>,
    hit: bool,
    markdown: bool,
) -> SpecResponse {
    match range {
        Some(h) => match spec_parse_range(h, body.len() as usize) {
            Some((start, end)) => {
                if !spec_window_valid(start, end, body.len() as int) {
                    spec_range_not_satisfiable()
                } else {
                    SpecResponse {
                        status: 206,
                        body: body.subrange(start as int, end as int),
                        content_length: Some(end - start),
                        content_range: Some(
                            spec_content_range(start as int, end - 1, body.len() as int),
                        ),
                        x_cache: Some(hit),
                        markdown: markdown,
                    }
                }
            },
            None => spec_full_response(body, hit, markdown),
        },
        None => spec_full_response(body, hit, markdown),
    }
}

/// Law: a `Range` header that fails to parse is treated as absent — the
/// response equals a no-header response byte for byte.
pub proof fn lemma_malformed_range_is_ignored(
    body: Seq<u8>,
    h: Seq<char>,
    hit: bool,
    markdown: bool,
)
    requires
        spec_parse_range(h, body.len() as usize) is None,
    ensures
        spec_response(body, Some(h), hit, markdown) == spec_response(body, None, hit, markdown),
{
}

/// Renders the `Content-Range` header value.
pub fn format_content_range(start: usize, last: usize, total: usize) -> (r: String)
    ensures
        r@ == spec_content_range(start as int, last as int, total as int),
{
    let mut s = String::from_str("bytes ");
    s.append(u64_to_dec(start as u64).as_str());
    s.append("-");
    s.append(u64_to_dec(last as u64).as_str());
    s.append("/");
    s.append(u64_to_dec(total as u64).as_str());
    proof {
        reveal_strlit("bytes ");
        reveal_strlit("-");
        reveal_strlit("/");
        assert(s@ =~= spec_content_range(start as int, last as int, total as int));
    }
    s
}

/// Copies `body[start..end]` out of the shared buffer.
pub fn copy_slice(body: &Vec<u8>, start: usize, end: usize) -> (r: Vec<u8>)
    requires
        start <= end <= body@.len(),
    ensures
        r@ == body@.subrange(start as int, end as int),
{
    let mut r: Vec<u8> = Vec::new();
    let mut i = start;
    while i < end
        invariant
            start <= i <= end <= body@.len(),
            r@ == body@.subrange(start as int, i as int),
        decreases end - i,
    {
        let b = body[i];
        r.push(b);
        proof {
            assert(body@.subrange(start as int, i + 1) =~= body@.subrange(
                start as int,
                i as int,
            ).push(b));
        }
        i = i + 1;
    }
    r
}

/// Applies the range resolver to a buffered body. `None` means the header
/// did not parse and the caller should serve the full body; otherwise the
/// 206 or 416 response is final. The partial payload is counted in
/// `stats`; a 416 serves no payload.
pub fn handle_range_response(
    body: &Vec<u8>,
    range_str: &str,
    is_cache_hit: bool,
    markdown: bool,
    stats: &mut LogStats,
) -> (r: Option<HttpResponse>)
    ensures
        r is Some <==> spec_parse_range(range_str@, body@.len() as usize) is Some,
        match r {
            Some(resp) => resp@ == spec_response(
                body@,
                Some(range_str@),
                is_cache_hit,
                markdown,
            ) && final(stats).bytes_served == sat_plus(
                old(stats).bytes_served,
                resp@.body.len() as u64,
            ),
            None => *final(stats) == *old(stats),
        },
        final(stats).request_count == old(stats).request_count,
        final(stats).cache_hits == old(stats).cache_hits,
{
    match parse_range_header(range_str, body.len()) {
        None => None,
        Some((start, end)) => {
            if start >= body.len() || end > body.len() || start >= end {
                Some(
                    HttpResponse {
                        status: 416,
                        body: Vec::new(),
                        content_length: None,
                        content_range: None,
                        x_cache: None,
                        markdown: false,
                    },
                )
            } else {
                let partial = copy_slice(body, start, end);
                stats.record_bytes_served(partial.len());
                let cr = format_content_range(start, end - 1, body.len());
                Some(
                    HttpResponse {
                        status: 206,
                        body: partial,
                        content_length: Some(end - start),
                        content_range: Some(cr),
                        x_cache: Some(
                            if is_cache_hit {
                                CacheStatus::Hit
                            } else {
                                CacheStatus::Miss
                            },
                        ),
                        markdown: markdown,
                    },
                )
            }
        },
    }
}

/// Serves the whole body as 200 and counts its length in `stats`.
pub fn full_response(body: Vec<u8>, is_cache_hit: bool, markdown: bool, stats: &mut LogStats) -> (r:
    HttpResponse)
    ensures
        r@ == spec_full_response(body@, is_cache_hit, markdown),
        final(stats).bytes_served == sat_plus(old(stats).bytes_served, body@.len() as u64),
        final(stats).request_count == old(stats).request_count,
        final(stats).cache_hits == old(stats).cache_hits,
{
    stats.record_bytes_served(body.len());
    let n = body.len();
    HttpResponse {
        status: 200,
        body: body,
        content_length: Some(n),
        content_range: None,
        x_cache: Some(
            if is_cache_hit {
                CacheStatus::Hit
            } else {
                CacheStatus::Miss
            },
        ),
        markdown: markdown,
    }
}

/// Serves a buffered body against an optional `Range` header, exactly as
/// the dispatcher does for tiles (`markdown == false`) and README bodies
/// (`markdown == true`, always counted as a hit). The payload bytes of
/// the resulting response are counted in `stats`.
pub fn render_response(
    body: Vec<u8>,
    range: Option<&str>,
    is_cache_hit: bool,
    markdown: bool,
    stats: &mut LogStats,
) -> (r: HttpResponse)
    ensures
        r@ == spec_response(
            body@,
            match range {
                Some(h) => Some(h@),
                None => None,
            },
            is_cache_hit,
            markdown,
        ),
        final(stats).bytes_served == sat_plus(old(stats).bytes_served, r@.body.len() as u64),
        final(stats).request_count == old(stats).request_count,
        final(stats).cache_hits == old(stats).cache_hits,
{
    match range {
        Some(h) => {
            match handle_range_response(&body, h, is_cache_hit, markdown, stats) {
                Some(resp) => resp,
                None => full_response(body, is_cache_hit, markdown, stats),
            }
        },
        None => full_response(body, is_cache_hit, markdown, stats),
    }
}

/// The value of a two-digit string.
proof fn lemma_two_digit_val(t: char, o: char)
    requires
        is_digit(t),
        is_digit(o),
    ensures
        all_digits(seq![t, o]),
        digits_val(seq![t, o]) == digit_of(t) * 10 + digit_of(o),
{
    let s = seq![t, o];
    assert(s.drop_last() =~= seq![t]);
    assert(seq![t].drop_last() =~= Seq::<char>::empty());
    assert(digits_val(Seq::<char>::empty()) == 0);
    assert(digits_val(seq![t]) == digit_of(t));
    assert forall|k: int| 0 <= k < s.len() implies is_digit(s[k]) by {
        if k == 0 {
            assert(s[k] == t);
        } else {
            assert(s[k] == o);
        }
    }
}

/// How `bytes=<a>-<b>` parses when `a` and `b` are digit strings.
proof fn lemma_parse_digits_form(a: Seq<char>, b: Seq<char>, len: usize)
    requires
        a.len() > 0,
        all_digits(a),
        digits_val(a) <= usize::MAX as int,
        all_digits(b),
        b.len() > 0 ==> digits_val(b) < usize::MAX as int,
    ensures
        spec_parse_range(spec_range_prefix() + a + seq!['-'] + b, len) == if b.len() == 0 {
            Some((digits_val(a) as usize, len))
        } else {
            Some((digits_val(a) as usize, (digits_val(b) + 1) as usize))
        },
{
    let h = spec_range_prefix() + a + seq!['-'] + b;
    assert(h.take(6) =~= spec_range_prefix());
    let rest = h.skip(6);
    assert(rest =~= a + seq!['-'] + b);
    assert(!is_digit('-'));
    assert forall|k: int| 0 <= k < a.len() implies rest[k] != '-' by {
        assert(rest[k] == a[k]);
        assert(is_digit(a[k]));
    }
    assert(rest[a.len() as int] == '-');
    lemma_find_char_scan(rest, '-', a.len() as int);
    assert(rest.take(a.len() as int) =~= a);
    assert(rest.skip(a.len() as int + 1) =~= b);
    if rest.skip(a.len() as int + 1).contains('-') {
        let i = choose|i: int|
            0 <= i < rest.skip(a.len() as int + 1).len() && #[trigger] rest.skip(
                a.len() as int + 1,
            )[i] == '-';
        assert(is_digit(b[i]));
        assert(false);
    }
    crate::range::lemma_digits_val_bounds(a);
    if b.len() > 0 {
        crate::range::lemma_digits_val_bounds(b);
    }
}

/// Law: for a body of `L` bytes (`L > 50`), `bytes=10-50` yields 206 with
/// `Content-Range: bytes 10-50/L` and the bytes `body[10..=50]`, while
/// `bytes=(L+10)-(L+20)`, `bytes=50-20` and `bytes=10-(L+100)` all yield
/// the 416 response.
pub proof fn lemma_range_law(body: Seq<u8>, hit: bool, markdown: bool)
    requires
        50 < body.len(),
        body.len() < usize::MAX - 100,
    ensures
        ({
            let r = spec_response(
                body,
                Some(spec_range_prefix() + seq!['1', '0', '-', '5', '0']),
                hit,
                markdown,
            );
            &&& r.status == 206
            &&& r.body == body.subrange(10, 51)
            &&& r.content_range == Some(spec_content_range(10, 50, body.len() as int))
        }),
        spec_response(
            body,
            Some(
                spec_range_prefix() + spec_dec((body.len() + 10) as nat) + seq!['-'] + spec_dec(
                    (body.len() + 20) as nat,
                ),
            ),
            hit,
            markdown,
        ) == spec_range_not_satisfiable(),
        spec_response(
            body,
            Some(spec_range_prefix() + seq!['5', '0', '-', '2', '0']),
            hit,
            markdown,
        ) == spec_range_not_satisfiable(),
        spec_response(
            body,
            Some(spec_range_prefix() + seq!['1', '0', '-'] + spec_dec((body.len() + 100) as nat)),
            hit,
            markdown,
        ) == spec_range_not_satisfiable(),
{
    let len = body.len() as usize;
    lemma_two_digit_val('1', '0');
    lemma_two_digit_val('5', '0');
    lemma_two_digit_val('2', '0');
    assert(digits_val(seq!['1', '0']) == 10);
    assert(digits_val(seq!['5', '0']) == 50);
    assert(digits_val(seq!['2', '0']) == 20);
    assert(seq!['1', '0'] + seq!['-'] + seq!['5', '0'] =~= seq!['1', '0', '-', '5', '0']);
    assert(spec_range_prefix() + seq!['1', '0'] + seq!['-'] + seq!['5', '0'] =~= spec_range_prefix()
        + seq!['1', '0', '-', '5', '0']);
    lemma_parse_digits_form(seq!['1', '0'], seq!['5', '0'], len);
    assert(spec_parse_range(spec_range_prefix() + seq!['1', '0', '-', '5', '0'], len) == Some(
        (10usize, 51usize),
    ));
    assert(spec_window_valid(10, 51, body.len() as int));
    assert(spec_range_prefix() + seq!['5', '0'] + seq!['-'] + seq!['2', '0'] =~= spec_range_prefix()
        + seq!['5', '0', '-', '2', '0']);
    lemma_parse_digits_form(seq!['5', '0'], seq!['2', '0'], len);
    assert(spec_parse_range(spec_range_prefix() + seq!['5', '0', '-', '2', '0'], len) == Some(
        (50usize, 21usize),
    ));
    assert(!spec_window_valid(50, 21, body.len() as int));
    lemma_dec_roundtrip((body.len() + 10) as nat);
    lemma_dec_roundtrip((body.len() + 20) as nat);
    lemma_dec_roundtrip((body.len() + 100) as nat);
    lemma_parse_digits_form(
        spec_dec((body.len() + 10) as nat),
        spec_dec((body.len() + 20) as nat),
        len,
    );
    crate::numfmt::lemma_dec_len((body.len() + 10) as nat);
    assert(!spec_window_valid(
        (body.len() + 10) as usize,
        (body.len() + 21) as usize,
        body.len() as int,
    ));
    crate::numfmt::lemma_dec_len((body.len() + 100) as nat);
    assert(spec_range_prefix() + seq!['1', '0'] + seq!['-'] + spec_dec((body.len() + 100) as nat)
        =~= spec_range_prefix() + seq!['1', '0', '-'] + spec_dec((body.len() + 100) as nat));
    lemma_parse_digits_form(seq!['1', '0'], spec_dec((body.len() + 100) as nat), len);
    assert(!spec_window_valid(10, (body.len() + 101) as usize, body.len() as int));
}

/// A bare status response: empty body, no headers of ours.
pub open spec fn spec_status_response(status: int) -> SpecResponse {
    SpecResponse {
        status: status,
        body: Seq::empty(),
        content_length: None,
        content_range: None,
        x_cache: None,
        markdown: false,
    }
}

/// 400, for a path that sanitizes to the invalid sentinel.
pub fn bad_request_response() -> (r: HttpResponse)
    ensures
        r@ == spec_status_response(400),
{
    HttpResponse {
        status: 400,
        body: Vec::new(),
        content_length: None,
        content_range: None,
        x_cache: None,
        markdown: false,
    }
}

/// 404, for a README that cannot be read.
pub fn not_found_response() -> (r: HttpResponse)
    ensures
        r@ == spec_status_response(404),
{
    HttpResponse {
        status: 404,
        body: Vec::new(),
        content_length: None,
        content_range: None,
        x_cache: None,
        markdown: false,
    }
}

/// 502, for a failed upstream fetch.
pub fn bad_gateway_response() -> (r: HttpResponse)
    ensures
        r@ == spec_status_response(502),
{
    HttpResponse {
        status: 502,
        body: Vec::new(),
        content_length: None,
        content_range: None,
        x_cache: None,
        markdown: false,
    }
}

} // verus!
