//! Path sanitization.
//!
//! A request path arrives as `<opaque-segment>/<relative-path>`. The opaque
//! first segment is discarded, and the remainder is decomposed into
//! `/`-separated components. Only plain components survive: empty and `.`
//! components are normalized away, while any traversal marker (`..`), a
//! leading root `/`, a leading `.` component, or an empty remainder makes
//! the whole path invalid. The invalid sentinel is the empty string —
//! sanitization fails closed and never partially processes a path.

use vstd::prelude::*;

verus! {

/// A segment that survives normalization: non-empty and not `.`.
pub open spec fn is_kept_segment(seg: Seq<char>) -> bool {
    seg.len() > 0 && seg != seq!['.']
}

/// Index of the first occurrence of `sep` in `s`, or -1 if absent.
pub open spec fn find_char(s: Seq<char>, sep: char) -> int
    decreases s.len(),
{
    if s.len() == 0 {
        -1
    } else if s[0] == sep {
        0
    } else {
        let r = find_char(s.skip(1), sep);
        if r < 0 {
            -1
        } else {
            r + 1
        }
    }
}

/// `s` split at every occurrence of `sep`; always at least one piece.
pub open spec fn spec_split(s: Seq<char>, sep: char) -> Seq<Seq<char>>
    decreases s.len(),
{
    if s.len() == 0 {
        seq![Seq::<char>::empty()]
    } else if s[0] == sep {
        seq![Seq::<char>::empty()] + spec_split(s.skip(1), sep)
    } else {
        let rest = spec_split(s.skip(1), sep);
        seq![seq![s[0]] + rest[0]] + rest.skip(1)
    }
}

/// The segments that survive normalization, in order.
pub open spec fn spec_kept(parts: Seq<Seq<char>>) -> Seq<Seq<char>>
    decreases parts.len(),
{
    if parts.len() == 0 {
        Seq::empty()
    } else {
        let rest = spec_kept(parts.skip(1));
        if is_kept_segment(parts[0]) {
            seq![parts[0]] + rest
        } else {
            rest
        }
    }
}

/// The parts joined with a single `/` between neighbours.
pub open spec fn spec_join(parts: Seq<Seq<char>>) -> Seq<char>
    decreases parts.len(),
{
    if parts.len() == 0 {
        Seq::empty()
    } else if parts.len() == 1 {
        parts[0]
    } else {
        parts[0] + seq!['/'] + spec_join(parts.skip(1))
    }
}

/// The remainder after the opaque segment is free of traversal markers:
/// non-empty, not rooted, no leading `.` component, and no `..` anywhere.
pub open spec fn tail_is_safe(raw: Seq<char>) -> bool {
    let segs = spec_split(raw, '/');
    &&& raw.len() > 0
    &&& raw[0] != '/'
    &&& segs[0] != seq!['.']
    &&& forall|k: int| 0 <= k < segs.len() ==> segs[k] != seq!['.', '.']
}

/// Sanitization of the remainder after the opaque first segment.
pub open spec fn spec_sanitize_tail(raw: Seq<char>) -> Seq<char> {
    let kept = spec_kept(spec_split(raw, '/'));
    if tail_is_safe(raw) && kept.len() > 0 {
        spec_join(kept)
    } else {
        Seq::empty()
    }
}

/// Sanitization of a whole raw path: the opaque first segment (up to the
/// first `/`) is discarded, the remainder normalized. A path without `/`
/// has no remainder and is invalid.
pub open spec fn spec_sanitize(path: Seq<char>) -> Seq<char> {
    let i = find_char(path, '/');
    if i < 0 {
        Seq::empty()
    } else {
        spec_sanitize_tail(path.skip(i + 1))
    }
}

/// A split has at least one piece.
pub proof fn lemma_split_len(s: Seq<char>, sep: char)
    ensures
        spec_split(s, sep).len() >= 1,
    decreases s.len(),
{
    if s.len() > 0 && s[0] != sep {
        lemma_split_len(s.skip(1), sep);
    }
}

/// A scan that saw no `sep` before `i` pins down `find_char`.
pub proof fn lemma_find_char_scan(s: Seq<char>, sep: char, i: int)
    requires
        0 <= i <= s.len(),
        forall|j: int| 0 <= j < i ==> s[j] != sep,
        i == s.len() || s[i] == sep,
    ensures
        find_char(s, sep) == if i == s.len() {
            -1 as int
        } else {
            i
        },
    decreases i,
{
    if i > 0 {
        lemma_find_char_scan(s.skip(1), sep, i - 1);
    }
}

/// Splitting off the first piece: if no `sep` occurs before `j` and `j` is
/// either the end or a `sep`, the split is the piece before `j` followed by
/// the split of what comes after it.
pub proof fn lemma_split_at_first_sep(s: Seq<char>, sep: char, j: int)
    requires
        0 <= j <= s.len(),
        forall|k: int| 0 <= k < j ==> s[k] != sep,
        j == s.len() || s[j] == sep,
    ensures
        j == s.len() ==> spec_split(s, sep) == seq![s],
        j < s.len() ==> spec_split(s, sep) == seq![s.take(j)] + spec_split(s.skip(j + 1), sep),
    decreases j,
{
    if j == 0 {
        if s.len() == 0 {
            assert(spec_split(s, sep) =~~= seq![s]);
        } else {
            assert(s.take(0) =~= Seq::<char>::empty());
            assert(spec_split(s, sep) =~~= seq![s.take(0)] + spec_split(s.skip(1), sep));
        }
    } else {
        let t = s.skip(1);
        lemma_split_at_first_sep(t, sep, j - 1);
        lemma_split_len(t, sep);
        let rest = spec_split(t, sep);
        if j == s.len() {
            assert(rest == seq![t]);
            assert(seq![s[0]] + rest[0] =~= s);
            assert(spec_split(s, sep) =~~= seq![s]);
        } else {
            assert(t.skip(j) =~= s.skip(j + 1));
            assert(rest == seq![t.take(j - 1)] + spec_split(t.skip(j), sep));
            assert(seq![s[0]] + rest[0] =~= s.take(j));
            assert(rest.skip(1) =~~= spec_split(s.skip(j + 1), sep));
            assert(spec_split(s, sep) =~~= seq![s.take(j)] + spec_split(s.skip(j + 1), sep));
        }
    }
}

/// Appending a segment to the parts appends it to the kept segments iff it
/// is kept.
pub proof fn lemma_kept_push(parts: Seq<Seq<char>>, x: Seq<char>)
    ensures
        spec_kept(parts.push(x)) == spec_kept(parts) + if is_kept_segment(x) {
            seq![x]
        } else {
            Seq::<Seq<char>>::empty()
        },
    decreases parts.len(),
{
    if parts.len() == 0 {
        assert(parts.push(x)[0] == x);
        assert(parts =~~= Seq::<Seq<char>>::empty());
        assert(parts.push(x).skip(1) =~~= parts);
        if is_kept_segment(x) {
            assert(spec_kept(parts.push(x)) =~~= spec_kept(parts) + seq![x]);
        } else {
            assert(spec_kept(parts.push(x)) =~~= spec_kept(parts));
        }
    } else {
        assert(parts.push(x).skip(1) =~~= parts.skip(1).push(x));
        lemma_kept_push(parts.skip(1), x);
        assert(parts.push(x)[0] == parts[0]);
        if is_kept_segment(x) {
            assert(spec_kept(parts.push(x)) =~~= spec_kept(parts) + seq![x]);
        } else {
            assert(spec_kept(parts.push(x)) =~~= spec_kept(parts));
        }
    }
}

/// Joining after appending a segment appends `/` and the segment.
pub proof fn lemma_join_push(parts: Seq<Seq<char>>, x: Seq<char>)
    requires
        parts.len() > 0,
    ensures
        spec_join(parts.push(x)) == spec_join(parts) + seq!['/'] + x,
    decreases parts.len(),
{
    if parts.len() == 1 {
        assert(parts.push(x).skip(1) =~~= seq![x]);
        assert(spec_join(seq![x]) == x);
        assert(parts.push(x)[0] == parts[0]);
        assert(spec_join(parts.push(x)) =~= parts[0] + seq!['/'] + x);
    } else {
        assert(parts.push(x).skip(1) =~~= parts.skip(1).push(x));
        lemma_join_push(parts.skip(1), x);
        assert(spec_join(parts.push(x)) =~= spec_join(parts) + seq!['/'] + x);
    }
}

/// Law: a tail holding a `..` component, or rooted at `/`, sanitizes to
/// the invalid sentinel.
pub proof fn lemma_sanitize_rejects_traversal(path: Seq<char>)
    requires
        find_char(path, '/') >= 0,
        ({
            let raw = path.skip(find_char(path, '/') + 1);
            let segs = spec_split(raw, '/');
            (exists|k: int| 0 <= k < segs.len() && segs[k] == seq!['.', '.']) || (raw.len() > 0
                && raw[0] == '/')
        }),
    ensures
        spec_sanitize(path) == Seq::<char>::empty(),
{
}

/// Law: a plain relative tail — non-empty, not rooted, no `..`, no leading
/// `.`, with at least one plain component — sanitizes to the join of its
/// non-dot components.
pub proof fn lemma_sanitize_plain(path: Seq<char>)
    requires
        find_char(path, '/') >= 0,
        tail_is_safe(path.skip(find_char(path, '/') + 1)),
        spec_kept(spec_split(path.skip(find_char(path, '/') + 1), '/')).len() > 0,
    ensures
        spec_sanitize(path) == spec_join(
            spec_kept(spec_split(path.skip(find_char(path, '/') + 1), '/')),
        ),
{
}

/// Law: a path without any `/` has no remainder after the opaque first
/// segment and sanitizes to the invalid sentinel.
pub proof fn lemma_sanitize_no_tail(path: Seq<char>)
    requires
        find_char(path, '/') < 0,
    ensures
        spec_sanitize(path) == Seq::<char>::empty(),
{
}

/// Validates and normalizes a raw request path. The first segment is
/// discarded as an opaque prefix; the remainder is normalized into the
/// cache key. Returns the empty string as the invalid sentinel.
pub fn sanitize_path(path: &str) -> (r: String)
    ensures
        r@ == spec_sanitize(path@),
{
    let n = path.unicode_len();
    let mut i: usize = 0;
    while i < n && path.get_char(i) != '/'
        invariant
            i <= n,
            n == path@.len(),
            forall|j: int| 0 <= j < i ==> path@[j] != '/',
        decreases n - i,
    {
        i = i + 1;
    }
    proof {
        lemma_find_char_scan(path@, '/', i as int);
    }
    if i == n {
        return String::new();
    }
    let tail = path.substring_char(i + 1, n);
    proof {
        assert(tail@ =~= path@.skip(i + 1));
    }
    sanitize_tail(tail)
}

fn sanitize_tail(raw: &str) -> (r: String)
    ensures
        r@ == spec_sanitize_tail(raw@),
{
    let n = raw.unicode_len();
    if n == 0 {
        return String::new();
    }
    if raw.get_char(0) == '/' {
        return String::new();
    }
    let mut out = String::new();
    let mut kept_count: usize = 0;
    let mut start: usize = 0;
    let ghost mut done: Seq<Seq<char>> = Seq::empty();
    proof {
        assert(raw@.skip(0) =~= raw@);
        assert(Seq::<Seq<char>>::empty() + spec_split(raw@, '/') =~~= spec_split(raw@, '/'));
    }
    loop
        invariant_except_break
            start <= n,
            kept_count <= start,
            (done.len() == 0) <==> (start == 0),
            spec_split(raw@, '/') == done + spec_split(raw@.skip(start as int), '/'),
        invariant
            n == raw@.len(),
            0 < n,
            raw@[0] != '/',
            forall|k: int| 0 <= k < done.len() ==> done[k] != seq!['.', '.'],
            done.len() > 0 ==> done[0] != seq!['.'],
            out@ == spec_join(spec_kept(done)),
            spec_kept(done).len() == kept_count as int,
        ensures
            spec_split(raw@, '/') == done,
        decreases n - start,
    {
        let mut j: usize = start;
        while j < n && raw.get_char(j) != '/'
            invariant
                start <= j <= n,
                n == raw@.len(),
                forall|k: int| start <= k < j ==> raw@[k] != '/',
            decreases n - j,
        {
            j = j + 1;
        }
        let ghost seg = raw@.subrange(start as int, j as int);
        proof {
            lemma_split_at_first_sep(raw@.skip(start as int), '/', j - start);
            assert(raw@.skip(start as int).take(j - start) =~= seg);
            if j < n {
                assert(raw@.skip(start as int).skip(j - start + 1) =~= raw@.skip(j + 1));
            } else {
                assert(raw@.skip(start as int) =~= seg);
            }
            lemma_split_len(raw@.skip(start as int), '/');
        }
        let is_dotdot = j - start == 2 && raw.get_char(start) == '.' && raw.get_char(start + 1)
            == '.';
        if is_dotdot {
            proof {
                assert(seg =~= seq!['.', '.']);
                let segs = spec_split(raw@, '/');
                assert(spec_split(raw@.skip(start as int), '/')[0] == seg);
                assert(segs[done.len() as int] == seg);
                assert(!tail_is_safe(raw@));
            }
            return String::new();
        }
        let is_dot = j - start == 1 && raw.get_char(start) == '.';
        if start == 0 && is_dot {
            proof {
                assert(seg =~= seq!['.']);
                let segs = spec_split(raw@, '/');
                assert(spec_split(raw@.skip(start as int), '/')[0] == seg);
                assert(segs[0] == seg);
                assert(!tail_is_safe(raw@));
            }
            return String::new();
        }
        if j > start && !is_dot {
            proof {
                if seg == seq!['.'] {
                    assert(seg.len() == 1);
                    assert(seg[0] == '.');
                    assert(false);
                }
                assert(is_kept_segment(seg));
                lemma_kept_push(done, seg);
                if kept_count > 0 {
                    lemma_join_push(spec_kept(done), seg);
                }
                reveal_strlit("/");
            }
            if kept_count > 0 {
                out.append("/");
            }
            out.append(raw.substring_char(start, j));
            kept_count = kept_count + 1;
            proof {
                assert(spec_kept(done.push(seg)) =~~= spec_kept(done) + seq![seg]);
                if spec_kept(done).len() == 0 {
                    assert(spec_kept(done) =~~= Seq::<Seq<char>>::empty());
                    assert(spec_join(Seq::<Seq<char>>::empty()) == Seq::<char>::empty());
                    assert(spec_kept(done.push(seg)) =~~= seq![seg]);
                    assert(spec_join(seq![seg]) == seg);
                    assert(spec_join(spec_kept(done.push(seg))) == seg);
                    assert(out@ =~= spec_join(spec_kept(done.push(seg))));
                } else {
                    assert(spec_kept(done.push(seg)) =~~= spec_kept(done).push(seg));
                    assert(spec_join(spec_kept(done).push(seg)) == spec_join(spec_kept(done))
                        + seq!['/'] + seg);
                    assert(out@ =~= spec_join(spec_kept(done.push(seg))));
                }
            }
        } else {
            proof {
                if j == start {
                    assert(seg.len() == 0);
                } else {
                    assert(seg =~= seq!['.']);
                }
                assert(!is_kept_segment(seg));
                lemma_kept_push(done, seg);
                assert(spec_kept(done.push(seg)) =~~= spec_kept(done));
            }
        }
        proof {
            done = done.push(seg);
        }
        if j == n {
            proof {
                assert(spec_split(raw@.skip(start as int), '/') == seq![seg]);
                assert(spec_split(raw@, '/') =~~= done);
            }
            break ;
        }
        start = j + 1;
        proof {
            assert(spec_split(raw@, '/') =~~= done + spec_split(raw@.skip(start as int), '/'));
        }
    }
    if kept_count == 0 {
        return String::new();
    }
    proof {
        lemma_split_len(raw@, '/');
        assert(tail_is_safe(raw@));
    }
    out
}

} // verus!
