//! The file-system encoding of a request:
//! `cache/image/<url-safe base64 of the wire key>/<cleaned source>.<webp|svg>`.
use crate::b64::{
    base64_url_safe, base64_url_safe_decoded, decode_url_safe, encode_url_safe, is_url_safe_char,
};
use crate::request::{CachedImage, CachedImageOption, DecodeError, RequestView};
use crate::text::{
    all_ascii, append_bytes, ascii_chars, escape, lemma_ascii_utf8, lemma_escape_bytes,
    lemma_split_join, lemma_split_single, push_escaped, split_on,
    string_from_utf8,
};
use crate::wire::{decode_query, decode_query_bytes, lemma_decode_wire, wire_bytes};
use vstd::prelude::*;
use vstd::slice::slice_subrange;
use vstd::utf8::*;

verus! {

broadcast use vstd::utf8::group_utf8_lib;

/// ASCII `'/'`.
pub const SLASH: u8 = 47;

/// ASCII `'.'`.
pub const DOT: u8 = 46;

/// The longest file name most file systems accept, in bytes.
pub const MAX_SEGMENT: usize = 255;

/// Pieces joined with `sep` between them.
pub open spec fn join_on(ps: Seq<Seq<u8>>, sep: u8) -> Seq<u8>
    decreases ps.len(),
{
    if ps.len() == 0 {
        Seq::empty()
    } else if ps.len() == 1 {
        ps[0]
    } else {
        join_on(ps.drop_last(), sep) + seq![sep] + ps.last()
    }
}

/// A path segment that names something below its directory: not empty, `.` or `..`.
pub open spec fn is_named_segment(p: Seq<u8>) -> bool {
    p.len() > 0 && p != seq![DOT] && p != seq![DOT, DOT]
}

/// The source as it appears in a file path: escaped, with empty, `.` and `..`
/// segments left out.
pub open spec fn clean_source(src: Seq<char>) -> Seq<u8> {
    join_on(named_only(split_on(escape(encode_utf8(src)), SLASH)), SLASH)
}

/// The named segments among `ps`, in order.
pub open spec fn named_only(ps: Seq<Seq<u8>>) -> Seq<Seq<u8>> {
    ps.filter(|p: Seq<u8>| is_named_segment(p))
}

/// `cache/image/`
pub open spec fn cache_prefix() -> Seq<u8> {
    seq![99u8, 97u8, 99u8, 104u8, 101u8, 47u8, 105u8, 109u8, 97u8, 103u8, 101u8, 47u8]
}

/// `.webp` for a resize, `.svg` for a blur.
pub open spec fn extension(o: CachedImageOption) -> Seq<u8> {
    match o {
        CachedImageOption::Resize(_) => seq![DOT, 119u8, 101u8, 98u8, 112u8],
        CachedImageOption::Blur(_) => seq![DOT, 115u8, 118u8, 103u8],
    }
}

/// The relative path of a request's artifact, as bytes.
pub open spec fn file_path_bytes(r: RequestView) -> Seq<u8> {
    cache_prefix() + base64_url_safe(wire_bytes(r)) + seq![SLASH] + clean_source(r.src)
        + extension(r.option)
}

/// The length of the `/`-free run that ends `p`.
pub open spec fn trailing_run(p: Seq<u8>) -> nat
    decreases p.len(),
{
    if p.len() == 0 || p.last() == SLASH {
        0
    } else {
        trailing_run(p.drop_last()) + 1
    }
}

/// Every segment of `p` (maximal `/`-free run) is at most `limit` bytes long.
pub open spec fn segments_fit(p: Seq<u8>, limit: nat) -> bool
    decreases p.len(),
{
    if p.len() == 0 {
        true
    } else {
        segments_fit(p.drop_last(), limit) && trailing_run(p) <= limit
    }
}

/// The request a relative artifact path was made for: the segment after
/// `cache/image/` must be URL-safe base64 of a wire key.
pub open spec fn decode_path(p: Seq<u8>) -> Option<RequestView> {
    let n = cache_prefix().len() as int;
    if p.len() >= n && p.subrange(0, n) == cache_prefix() {
        match base64_url_safe_decoded(split_on(p.subrange(n, p.len() as int), SLASH)[0]) {
            Some(w) => decode_query(w),
            None => None,
        }
    } else {
        None
    }
}

/// Prefixes of a fitting path fit.
proof fn lemma_fit_prefix(p: Seq<u8>, limit: nat, j: int)
    requires
        0 <= j <= p.len(),
        segments_fit(p, limit),
    ensures
        segments_fit(p.subrange(0, j), limit),
    decreases p.len(),
{
    if j < p.len() {
        lemma_fit_prefix(p.drop_last(), limit, j);
        assert(p.drop_last().subrange(0, j) == p.subrange(0, j));
    } else {
        assert(p.subrange(0, j) == p);
    }
}

/// Whether every `/`-separated segment of `p` is at most `limit` bytes long.
pub fn fits_segments(p: &[u8], limit: usize) -> (r: bool)
    ensures
        r == segments_fit(p@, limit as nat),
{
    let mut run: usize = 0;
    let mut i: usize = 0;
    while i < p.len()
        invariant
            i <= p@.len(),
            run == trailing_run(p@.subrange(0, i as int)),
            run <= limit,
            segments_fit(p@.subrange(0, i as int), limit as nat),
        decreases p@.len() - i,
    {
        let ghost next = p@.subrange(0, i + 1);
        assert(next.drop_last() == p@.subrange(0, i as int));
        if p[i] == SLASH {
            run = 0;
        } else {
            if run == limit {
                proof {
                    if segments_fit(p@, limit as nat) {
                        lemma_fit_prefix(p@, limit as nat, i + 1);
                    }
                }
                return false;
            }
            run = run + 1;
        }
        i = i + 1;
    }
    assert(p@.subrange(0, p@.len() as int) == p@);
    true
}

/// Adds the piece `e[start..end]` to the joined named pieces `done`, if it is named.
fn push_if_named(out: &mut Vec<u8>, any: bool, e: &[u8], start: usize, end: usize, Ghost(
    done,
): Ghost<Seq<Seq<u8>>>) -> (r: bool)
    requires
        start <= end <= e@.len(),
        old(out)@ == join_on(done, SLASH),
        any == (done.len() > 0),
        all_ascii(old(out)@),
        all_ascii(e@),
    ensures
        all_ascii(final(out)@),
        ({
            let piece = e@.subrange(start as int, end as int);
            let now = if is_named_segment(piece) {
                done.push(piece)
            } else {
                done
            };
            final(out)@ == join_on(now, SLASH) && r == (now.len() > 0)
        }),
{
    let ghost piece = e@.subrange(start as int, end as int);
    if is_named(e, start, end) {
        if any {
            out.push(SLASH);
        }
        append_bytes(out, slice_subrange(e, start, end));
        assert(all_ascii(final(out)@)) by {
            assert forall|k: int| 0 <= k < final(out)@.len() implies final(out)@[k] < 128 by {
                if k >= old(out)@.len() + (if any { 1int } else { 0int }) {
                    assert(final(out)@[k] == e@[start + k - (final(out)@.len() - piece.len())]);
                } else if k < old(out)@.len() {
                    assert(final(out)@[k] == old(out)@[k]);
                }
            }
        }
        assert(done.push(piece).drop_last() =~= done);
        assert(final(out)@ =~= join_on(done.push(piece), SLASH));
        true
    } else {
        any
    }
}

/// Appends `src`'s characters, escaped and without empty, `.` or `..` segments.
fn push_clean_source(out: &mut Vec<u8>, src: &str)
    ensures
        final(out)@ == old(out)@ + clean_source(src@),
        all_ascii(clean_source(src@)),
{
    reveal(Seq::filter);
    let mut e: Vec<u8> = Vec::new();
    push_escaped(&mut e, src.as_bytes());
    assert(e@ == escape(encode_utf8(src@)));
    proof {
        lemma_escape_bytes(encode_utf8(src@));
    }
    let mut start: usize = 0;
    let mut i: usize = 0;
    let mut joined: Vec<u8> = Vec::new();
    let mut any = false;
    while i < e.len()
        invariant
            start <= i <= e@.len(),
            split_on(e@.subrange(0, i as int), SLASH).len() >= 1,
            split_on(e@.subrange(0, i as int), SLASH).last() == e@.subrange(start as int, i as int),
            joined@ == join_on(named_only(split_on(e@.subrange(0, i as int), SLASH).drop_last()), SLASH),
            any == (named_only(split_on(e@.subrange(0, i as int), SLASH).drop_last()).len() > 0),
            all_ascii(joined@),
            all_ascii(e@),
        decreases e@.len() - i,
    {
        let ghost pre = split_on(e@.subrange(0, i as int), SLASH);
        assert(e@.subrange(0, i + 1).drop_last() =~= e@.subrange(0, i as int));
        if e[i] == SLASH {
            any = push_if_named(&mut joined, any, e.as_slice(), start, i, Ghost(named_only(pre.drop_last())));
            proof {
                reveal(Seq::filter);
                assert(pre.drop_last().push(pre.last()) =~= pre);
                assert(named_only(pre) == (if is_named_segment(pre.last()) {
                    named_only(pre.drop_last()).push(pre.last())
                } else {
                    named_only(pre.drop_last())
                }));
                assert(split_on(e@.subrange(0, i + 1), SLASH) == pre.push(Seq::empty()));
                assert(pre.push(Seq::empty()).drop_last() =~= pre);
                assert(e@.subrange(i + 1, i + 1) =~= Seq::<u8>::empty());
                assert(joined@ == join_on(named_only(pre), SLASH));
            }
            start = i + 1;
        } else {
            proof {
                let next = pre.update(pre.len() - 1, pre.last().push(e@[i as int]));
                assert(split_on(e@.subrange(0, i + 1), SLASH) == next);
                assert(next.drop_last() =~= pre.drop_last());
                assert(next.last() =~= e@.subrange(start as int, i + 1));
            }
        }
        i = i + 1;
    }
    let ghost pre = split_on(e@, SLASH);
    assert(e@.subrange(0, e@.len() as int) == e@);
    let _ = push_if_named(&mut joined, any, e.as_slice(), start, e.len(), Ghost(named_only(pre.drop_last())));
    proof {
        reveal(Seq::filter);
        assert(named_only(pre) == (if is_named_segment(pre.last()) {
            named_only(pre.drop_last()).push(pre.last())
        } else {
            named_only(pre.drop_last())
        }));
    }
    append_bytes(out, joined.as_slice());
    assert(joined@ == clean_source(src@));
}

/// Whether `s[start..end]` is a named segment.
fn is_named(s: &[u8], start: usize, end: usize) -> (r: bool)
    requires
        start <= end <= s@.len(),
    ensures
        r == is_named_segment(s@.subrange(start as int, end as int)),
{
    let ghost p = s@.subrange(start as int, end as int);
    if end == start {
        return false;
    }
    if end - start == 1 && s[start] == DOT {
        assert(p =~= seq![DOT]);
        return false;
    }
    if end - start == 2 && s[start] == DOT && s[start + 1] == DOT {
        assert(p =~= seq![DOT, DOT]);
        return false;
    }
    assert(p != seq![DOT]) by {
        if p.len() == 1 {
            assert(p[0] == s@[start as int]);
        }
    }
    assert(p != seq![DOT, DOT]) by {
        if p.len() == 2 {
            assert(p[0] == s@[start as int]);
            assert(p[1] == s@[start + 1]);
        }
    }
    true
}

/// The first `/`-separated piece of `a / b` is `a`, when `a` holds no `/`.
proof fn lemma_first_piece(a: Seq<u8>, b: Seq<u8>)
    requires
        forall|i: int| 0 <= i < a.len() ==> a[i] != SLASH,
    ensures
        split_on(a + seq![SLASH] + b, SLASH)[0] == a,
{
    lemma_split_join(a, SLASH, b);
    lemma_split_single(a, SLASH);
}

/// Appends `cache/image/`.
fn push_cache_prefix(out: &mut Vec<u8>)
    ensures
        final(out)@ == old(out)@ + cache_prefix(),
{
    out.push(99);
    out.push(97);
    out.push(99);
    out.push(104);
    out.push(101);
    out.push(SLASH);
    out.push(105);
    out.push(109);
    out.push(97);
    out.push(103);
    out.push(101);
    out.push(SLASH);
    assert(final(out)@ =~= old(out)@ + cache_prefix());
}

/// Appends the artifact's extension.
fn push_extension(out: &mut Vec<u8>, o: CachedImageOption)
    ensures
        final(out)@ == old(out)@ + extension(o),
{
    out.push(DOT);
    match o {
        CachedImageOption::Resize(_) => {
            out.push(119);
            out.push(101);
            out.push(98);
            out.push(112);
        },
        CachedImageOption::Blur(_) => {
            out.push(115);
            out.push(118);
            out.push(103);
        },
    }
    assert(final(out)@ =~= old(out)@ + extension(o));
}

impl CachedImage {
    /// The artifact's path relative to the site root:
    /// `cache/image/<url-safe base64 of the wire key>/<cleaned source>.<webp|svg>`.
    /// Fails with `PathTooLong` when a segment would exceed 255 bytes.
    /// For a valid request the path reads back as the same request: its last
    /// `ensures` clause, with the exact contract of `from_file_path`, is the
    /// round trip `decode_path(encode_path(r)) == Some(r)`.
    pub fn get_file_path(&self) -> (r: Result<String, DecodeError>)
        ensures
            r matches Ok(s) ==> encode_utf8(s@) == file_path_bytes(self@) && s@ == ascii_chars(
                file_path_bytes(self@),
            ),
            r is Err ==> r == Err::<String, DecodeError>(DecodeError::PathTooLong),
            r is Ok ==> segments_fit(file_path_bytes(self@), MAX_SEGMENT as nat),
            segments_fit(file_path_bytes(self@), MAX_SEGMENT as nat) && wire_bytes(self@).len()
                <= usize::MAX / 4 ==> r is Ok,
            self@.valid() && r is Ok ==> decode_path(encode_utf8(r->Ok_0@)) == Some(self@),
    {
        let wire = self.wire_key();
        if wire.len() > usize::MAX / 4 {
            return Err(DecodeError::PathTooLong);
        }
        let key = encode_url_safe(wire.as_slice());
        let mut out: Vec<u8> = Vec::new();
        push_cache_prefix(&mut out);
        append_bytes(&mut out, key.as_slice());
        out.push(SLASH);
        push_clean_source(&mut out, self.src.as_str());
        push_extension(&mut out, self.option);
        assert(out@ =~= file_path_bytes(self@));
        if !fits_segments(out.as_slice(), MAX_SEGMENT) {
            return Err(DecodeError::PathTooLong);
        }
        proof {
            let p = out@;
            assert forall|i: int| 0 <= i < key@.len() implies key@[i] != SLASH && key@[i] < 128 by {
                assert(is_url_safe_char(key@[i]));
            }
            assert(all_ascii(p)) by {
                assert forall|i: int| 0 <= i < p.len() implies p[i] < 128 by {
                    let n0 = cache_prefix().len() as int;
                    let n1 = n0 + key@.len();
                    let n2 = n1 + 1;
                    let n3 = n2 + clean_source(self@.src).len();
                    if i < n0 {
                    } else if i < n1 {
                        assert(p[i] == key@[i - n0]);
                    } else if i < n2 {
                    } else if i < n3 {
                        assert(p[i] == clean_source(self@.src)[i - n2]);
                    } else {
                        assert(p[i] == extension(self@.option)[i - n3]);
                    }
                }
            }
            lemma_ascii_utf8(p);
            if self@.valid() {
                let n = cache_prefix().len() as int;
                assert(p.subrange(0, n) =~= cache_prefix());
                assert(p.subrange(n, p.len() as int) =~= key@ + seq![SLASH] + (clean_source(self@.src) + extension(self@.option)));
                lemma_first_piece(key@, clean_source(self@.src) + extension(self@.option));
                lemma_decode_wire(self@);
            }
        }
        match string_from_utf8(out) {
            Some(s) => Ok(s),
            None => Err(DecodeError::PathTooLong),
        }
    }
}

// ---------------------------------------------------------------------------
// Joining path segments
// ---------------------------------------------------------------------------
/// `s` without its leading `/`s.
pub open spec fn trim_start(s: Seq<u8>) -> Seq<u8>
    decreases s.len(),
{
    if s.len() > 0 && s[0] == SLASH {
        trim_start(s.drop_first())
    } else {
        s
    }
}

/// `s` without its trailing `/`s.
pub open spec fn trim_end(s: Seq<u8>) -> Seq<u8>
    decreases s.len(),
{
    if s.len() > 0 && s.last() == SLASH {
        trim_end(s.drop_last())
    } else {
        s
    }
}

/// `s` without leading or trailing `/`s.
pub open spec fn trim_slashes(s: Seq<u8>) -> Seq<u8> {
    trim_end(trim_start(s))
}

/// The segments trimmed of `/`s, empty ones left out, joined with `/`.
pub open spec fn joined_segments(ss: Seq<Seq<u8>>) -> Seq<u8> {
    join_on(non_empty(ss.map_values(|s: Seq<u8>| trim_slashes(s))), SLASH)
}

/// The non-empty pieces among `ps`, in order.
pub open spec fn non_empty(ps: Seq<Seq<u8>>) -> Seq<Seq<u8>> {
    ps.filter(|p: Seq<u8>| p.len() > 0)
}

/// Trimming leading `/`s keeps UTF-8 well-formed.
proof fn lemma_trim_start_valid(s: Seq<u8>)
    requires
        valid_utf8(s),
    ensures
        valid_utf8(trim_start(s)),
    decreases s.len(),
{
    if s.len() > 0 && s[0] == SLASH {
        assert(pop_first_scalar(s) == s.drop_first());
        lemma_trim_start_valid(s.drop_first());
    }
}

/// Trimming trailing `/`s keeps UTF-8 well-formed.
proof fn lemma_trim_end_valid(s: Seq<u8>)
    requires
        valid_utf8(s),
    ensures
        valid_utf8(trim_end(s)),
    decreases s.len(),
{
    if s.len() > 0 && s.last() == SLASH {
        let k = s.len() - 1;
        is_char_boundary_iff_not_is_continuation_byte(s, k);
        valid_utf8_split(s, k);
        assert(s.subrange(0, k) == s.drop_last());
        lemma_trim_end_valid(s.drop_last());
    }
}

/// The range of `s` left once leading and trailing `/`s are trimmed.
fn trimmed_range(s: &[u8]) -> (r: (usize, usize))
    ensures
        r.0 <= r.1 <= s@.len(),
        s@.subrange(r.0 as int, r.1 as int) == trim_slashes(s@),
{
    let mut a: usize = 0;
    assert(s@.subrange(0, s@.len() as int) == s@);
    while a < s.len() && s[a] == SLASH
        invariant
            a <= s@.len(),
            trim_start(s@) == trim_start(s@.subrange(a as int, s@.len() as int)),
        decreases s@.len() - a,
    {
        assert(s@.subrange(a as int, s@.len() as int).drop_first() =~= s@.subrange(a + 1, s@.len() as int));
        a = a + 1;
    }
    let ghost t = s@.subrange(a as int, s@.len() as int);
    assert(trim_start(t) == t);
    let mut b: usize = s.len();
    assert(s@.subrange(a as int, b as int) == t);
    while b > a && s[b - 1] == SLASH
        invariant
            a <= b <= s@.len(),
            trim_end(t) == trim_end(s@.subrange(a as int, b as int)),
            t == s@.subrange(a as int, s@.len() as int),
        decreases b,
    {
        assert(s@.subrange(a as int, b as int).drop_last() =~= s@.subrange(a as int, b - 1));
        b = b - 1;
    }
    assert(trim_end(s@.subrange(a as int, b as int)) == s@.subrange(a as int, b as int));
    (a, b)
}

/// Joins path segments with `/`, first trimming each of leading and trailing
/// `/`s and leaving out those that are then empty.
pub fn path_from_segments(segments: Vec<&str>) -> (r: String)
    ensures
        encode_utf8(r@) == joined_segments(segments@.map_values(|s: &str| encode_utf8(s@))),
{
    let ghost ss = segments@.map_values(|s: &str| encode_utf8(s@));
    let ghost ts = ss.map_values(|s: Seq<u8>| trim_slashes(s));
    let mut out: Vec<u8> = Vec::new();
    let mut any = false;
    let mut k: usize = 0;
    while k < segments.len()
        invariant
            k <= segments@.len(),
            ss == segments@.map_values(|s: &str| encode_utf8(s@)),
            ts == ss.map_values(|s: Seq<u8>| trim_slashes(s)),
            out@ == join_on(non_empty(ts.subrange(0, k as int)), SLASH),
            any == (non_empty(ts.subrange(0, k as int)).len() > 0),
            valid_utf8(out@),
        decreases segments@.len() - k,
    {
        let bytes = segments[k].as_bytes();
        let (a, b) = trimmed_range(bytes);
        let ghost done = non_empty(ts.subrange(0, k as int));
        let ghost piece = bytes@.subrange(a as int, b as int);
        proof {
            reveal(Seq::filter);
            assert(ts.subrange(0, k + 1).drop_last() =~= ts.subrange(0, k as int));
            assert(ts.subrange(0, k + 1).last() == piece);
            assert(non_empty(ts.subrange(0, k + 1)) == if piece.len() > 0 {
                done.push(piece)
            } else {
                done
            });
            encode_utf8_valid_utf8(segments@[k as int]@);
            lemma_trim_start_valid(bytes@);
            lemma_trim_end_valid(trim_start(bytes@));
        }
        if a < b {
            let ghost before = out@;
            if any {
                out.push(SLASH);
                proof {
                    lemma_ascii_utf8(seq![SLASH]);
                    valid_utf8_concat(before, seq![SLASH]);
                    assert(out@ == before + seq![SLASH]);
                }
            }
            let ghost mid = out@;
            append_bytes(&mut out, slice_subrange(bytes, a, b));
            proof {
                valid_utf8_concat(mid, piece);
                assert(done.push(piece).drop_last() =~= done);
                assert(out@ =~= join_on(done.push(piece), SLASH));
            }
            any = true;
        }
        k = k + 1;
    }
    assert(ts.subrange(0, segments@.len() as int) == ts);
    match string_from_utf8(out) {
        Some(s) => s,
        None => String::new(),
    }
}

/// Whether `s` starts with `cache/image/`.
fn starts_with_cache_prefix(s: &[u8]) -> (r: bool)
    ensures
        r == (s@.len() >= cache_prefix().len() && s@.subrange(0, cache_prefix().len() as int)
            == cache_prefix()),
{
    let mut pre: Vec<u8> = Vec::new();
    push_cache_prefix(&mut pre);
    assert(pre@ =~= cache_prefix());
    let n = pre.len();
    if s.len() < n {
        return false;
    }
    let mut i: usize = 0;
    while i < n
        invariant
            i <= n == pre@.len() <= s@.len(),
            pre@ == cache_prefix(),
            s@.subrange(0, i as int) == pre@.subrange(0, i as int),
        decreases n - i,
    {
        if s[i] != pre[i] {
            assert(s@.subrange(0, n as int)[i as int] != pre@[i as int]);
            return false;
        }
        assert(s@.subrange(0, i + 1) =~= pre@.subrange(0, i + 1));
        i = i + 1;
    }
    assert(pre@.subrange(0, n as int) == pre@);
    true
}

impl CachedImage {
    /// Reads back the request an artifact path (relative to the site root) was
    /// made for, from the segment after `cache/image/`.
    pub fn from_file_path(path: &str) -> (r: Option<CachedImage>)
        ensures
            match decode_path(encode_utf8(path@)) {
                Some(v) => r matches Some(x) && x@ == v,
                None => r is None,
            },
    {
        let bytes = path.as_bytes();
        if !starts_with_cache_prefix(bytes) {
            return None;
        }
        let n: usize = 12;
        assert(cache_prefix().len() == 12);
        let ghost rest = bytes@.subrange(n as int, bytes@.len() as int);
        let mut j: usize = n;
        while j < bytes.len() && bytes[j] != SLASH
            invariant
                n <= j <= bytes@.len(),
                forall|i: int| n <= i < j ==> bytes@[i] != SLASH,
            decreases bytes@.len() - j,
        {
            j = j + 1;
        }
        let seg = slice_subrange(bytes, n, j);
        proof {
            let a = bytes@.subrange(n as int, j as int);
            assert forall|i: int| 0 <= i < a.len() implies a[i] != SLASH by {
                assert(a[i] == bytes@[n + i]);
            }
            if j == bytes@.len() {
                assert(rest =~= a);
                lemma_split_single(a, SLASH);
            } else {
                assert(rest =~= a + seq![SLASH] + bytes@.subrange(j + 1, bytes@.len() as int));
                lemma_first_piece(a, bytes@.subrange(j + 1, bytes@.len() as int));
            }
        }
        match decode_url_safe(seg) {
            Some(w) => {
                assert(w.deep_view() =~= w@);
                match decode_query_bytes(w.as_slice()) {
                    Ok(x) => Some(x),
                    Err(_) => None,
                }
            },
            None => None,
        }
    }

    /// The artifact's path below `root`: the root without its trailing `/`s,
    /// a `/`, then the relative path. A leading `/` of the root is kept, so an
    /// absolute root gives an absolute path.
    pub fn get_file_path_from_root(&self, root: &str) -> (r: Result<String, DecodeError>)
        ensures
            r matches Ok(s) ==> encode_utf8(s@) == under_root(encode_utf8(root@), file_path_bytes(self@)),
            r is Err ==> r == Err::<String, DecodeError>(DecodeError::PathTooLong),
            !segments_fit(file_path_bytes(self@), MAX_SEGMENT as nat) ==> r is Err,
            segments_fit(file_path_bytes(self@), MAX_SEGMENT as nat) && wire_bytes(self@).len()
                <= usize::MAX / 4 ==> r is Ok,
    {
        match self.get_file_path() {
            Ok(rel) => {
                proof {
                    encode_utf8_valid_utf8(rel@);
                }
                Ok(join_below(root, rel.as_str().as_bytes()))
            },
            Err(e) => Err(e),
        }
    }
}

/// A path below `root`: the root without its trailing `/`s, a `/`, then `rel`;
/// just `rel` when the root is empty. A leading `/` of the root is kept.
pub open spec fn under_root(root: Seq<u8>, rel: Seq<u8>) -> Seq<u8> {
    if root.len() == 0 {
        rel
    } else {
        trim_end(root) + seq![SLASH] + rel
    }
}

/// The length of `s` once its trailing `/`s are trimmed.
fn trim_end_len(s: &[u8]) -> (r: usize)
    ensures
        r <= s@.len(),
        s@.subrange(0, r as int) == trim_end(s@),
{
    let mut b: usize = s.len();
    assert(s@.subrange(0, b as int) == s@);
    while b > 0 && s[b - 1] == SLASH
        invariant
            b <= s@.len(),
            trim_end(s@) == trim_end(s@.subrange(0, b as int)),
        decreases b,
    {
        assert(s@.subrange(0, b as int).drop_last() =~= s@.subrange(0, b - 1));
        b = b - 1;
    }
    b
}

/// Where `s` starts once its leading `/`s are trimmed.
fn trim_start_index(s: &[u8]) -> (r: usize)
    ensures
        r <= s@.len(),
        s@.subrange(r as int, s@.len() as int) == trim_start(s@),
{
    let mut a: usize = 0;
    assert(s@.subrange(0, s@.len() as int) == s@);
    while a < s.len() && s[a] == SLASH
        invariant
            a <= s@.len(),
            trim_start(s@) == trim_start(s@.subrange(a as int, s@.len() as int)),
        decreases s@.len() - a,
    {
        assert(s@.subrange(a as int, s@.len() as int).drop_first() =~= s@.subrange(a + 1, s@.len() as int));
        a = a + 1;
    }
    a
}

/// Places the well-formed UTF-8 path `rel` below `root`.
pub fn join_below(root: &str, rel: &[u8]) -> (r: String)
    requires
        valid_utf8(rel@),
    ensures
        encode_utf8(r@) == under_root(encode_utf8(root@), rel@),
{
    let rb = root.as_bytes();
    let mut out: Vec<u8> = Vec::new();
    if rb.len() == 0 {
        append_bytes(&mut out, rel);
    } else {
        let n = trim_end_len(rb);
        append_bytes(&mut out, slice_subrange(rb, 0, n));
        out.push(SLASH);
        append_bytes(&mut out, rel);
        proof {
            let t = trim_end(rb@);
            encode_utf8_valid_utf8(root@);
            lemma_trim_end_valid(rb@);
            lemma_ascii_utf8(seq![SLASH]);
            valid_utf8_concat(t, seq![SLASH]);
            valid_utf8_concat(t + seq![SLASH], rel@);
            assert(out@ =~= t + seq![SLASH] + rel@);
        }
    }
    match string_from_utf8(out) {
        Some(s) => s,
        None => String::new(),
    }
}

/// The source's path below `root`: its leading `/`s dropped, then placed
/// below the root as by `under_root`.
pub fn source_below(root: &str, src: &str) -> (r: String)
    ensures
        encode_utf8(r@) == under_root(encode_utf8(root@), trim_start(encode_utf8(src@))),
{
    let sb = src.as_bytes();
    let a = trim_start_index(sb);
    proof {
        encode_utf8_valid_utf8(src@);
        lemma_trim_start_valid(sb@);
    }
    join_below(root, slice_subrange(sb, a, sb.len()))
}

} // verus!
