//! The wire key: a query string `src=..&op=r&w=..&h=..&q=..` (resize) or
//! `src=..&op=b&w=..&h=..&sw=..&sh=..&s=..` (blur). Field order does not
//! matter, unknown fields are ignored, and the last copy of a field wins.
use crate::request::{Blur, CachedImage, CachedImageOption, DecodeError, RequestView, Resize, MAX_QUALITY};
use crate::text::{
    ascii_chars,
    after_last, all_ascii, append_bytes, decimal, decimal_at_most, escape, find_field,
    is_unreserved, last_index_of, lemma_ascii_utf8, lemma_decimal_value, lemma_escape_bytes,
    lemma_split_join, lemma_split_single, lemma_unescape_escape, lookup, parse_decimal,
    push_decimal, push_escaped, split_on, start_after_last, string_from_utf8, unescape,
    unescape_range, field_value, EQUALS, PERCENT,
};
use vstd::prelude::*;
use vstd::slice::slice_subrange;
use vstd::utf8::*;

verus! {

broadcast use vstd::utf8::group_utf8_lib;

/// ASCII `'&'`, between the fields of a key.
pub const AMP: u8 = 38;

/// ASCII `'?'`, between a path and its query.
pub const QUESTION: u8 = 63;

/// `src`
pub open spec fn key_src() -> Seq<u8> {
    seq![115u8, 114u8, 99u8]
}

/// `op`
pub open spec fn key_op() -> Seq<u8> {
    seq![111u8, 112u8]
}

/// `w`
pub open spec fn key_w() -> Seq<u8> {
    seq![119u8]
}

/// `h`
pub open spec fn key_h() -> Seq<u8> {
    seq![104u8]
}

/// `q`
pub open spec fn key_q() -> Seq<u8> {
    seq![113u8]
}

/// `sw`
pub open spec fn key_sw() -> Seq<u8> {
    seq![115u8, 119u8]
}

/// `sh`
pub open spec fn key_sh() -> Seq<u8> {
    seq![115u8, 104u8]
}

/// `s`
pub open spec fn key_s() -> Seq<u8> {
    seq![115u8]
}

/// `r`, the tag of a resize
pub open spec fn tag_resize() -> Seq<u8> {
    seq![114u8]
}

/// `b`, the tag of a blur
pub open spec fn tag_blur() -> Seq<u8> {
    seq![98u8]
}

/// `&key=n`
pub open spec fn number_field(key: Seq<u8>, n: nat) -> Seq<u8> {
    seq![AMP] + key + seq![EQUALS] + decimal(n)
}

/// The fields that follow `op=`.
pub open spec fn option_fields(o: CachedImageOption) -> Seq<u8> {
    match o {
        CachedImageOption::Resize(r) => tag_resize() + number_field(key_w(), r.width as nat)
            + number_field(key_h(), r.height as nat) + number_field(key_q(), r.quality as nat),
        CachedImageOption::Blur(b) => tag_blur() + number_field(key_w(), b.width as nat)
            + number_field(key_h(), b.height as nat) + number_field(key_sw(), b.svg_width as nat)
            + number_field(key_sh(), b.svg_height as nat) + number_field(key_s(), b.sigma as nat),
    }
}

/// The wire key of a request, as bytes.
pub open spec fn wire_bytes(r: RequestView) -> Seq<u8> {
    key_src() + seq![EQUALS] + escape(encode_utf8(r.src)) + seq![AMP] + key_op() + seq![EQUALS]
        + option_fields(r.option)
}

/// The number under `key`, if present, well-formed and at most `bound`.
pub open spec fn number_of(pieces: Seq<Seq<u8>>, key: Seq<u8>, bound: nat) -> Option<nat> {
    match lookup(pieces, key) {
        Some(v) => decimal_at_most(v, bound),
        None => None,
    }
}

/// The transform described by the fields, given the value of `op`.
pub open spec fn option_of(pieces: Seq<Seq<u8>>, op: Seq<u8>) -> Option<CachedImageOption> {
    let w = number_of(pieces, key_w(), u32::MAX as nat);
    let h = number_of(pieces, key_h(), u32::MAX as nat);
    if op == tag_resize() {
        let q = number_of(pieces, key_q(), MAX_QUALITY as nat);
        if w is Some && h is Some && q is Some {
            Some(
                CachedImageOption::Resize(
                    Resize { width: w->0 as u32, height: h->0 as u32, quality: q->0 as u8 },
                ),
            )
        } else {
            None
        }
    } else if op == tag_blur() {
        let sw = number_of(pieces, key_sw(), u32::MAX as nat);
        let sh = number_of(pieces, key_sh(), u32::MAX as nat);
        let s = number_of(pieces, key_s(), u8::MAX as nat);
        if w is Some && h is Some && sw is Some && sh is Some && s is Some {
            Some(
                CachedImageOption::Blur(
                    Blur {
                        width: w->0 as u32,
                        height: h->0 as u32,
                        svg_width: sw->0 as u32,
                        svg_height: sh->0 as u32,
                        sigma: s->0 as u8,
                    },
                ),
            )
        } else {
            None
        }
    } else {
        None
    }
}

/// The source named by the `src` field: unescaped, UTF-8, non-empty.
pub open spec fn source_of(pieces: Seq<Seq<u8>>) -> Option<Seq<char>> {
    match lookup(pieces, key_src()) {
        Some(e) => match unescape(e) {
            Some(b) => if valid_utf8(b) && decode_utf8(b).len() > 0 {
                Some(decode_utf8(b))
            } else {
                None
            },
            None => None,
        },
        None => None,
    }
}

/// The request a query string describes, if it describes one.
pub open spec fn decode_query(q: Seq<u8>) -> Option<RequestView> {
    let pieces = split_on(q, AMP);
    match (source_of(pieces), lookup(pieces, key_op())) {
        (Some(src), Some(op)) => match option_of(pieces, op) {
            Some(o) => Some(RequestView { src, option: o }),
            None => None,
        },
        _ => None,
    }
}

/// The request a URL (or a bare query) describes: only what follows its last `?` is read.
pub open spec fn decode_url(url: Seq<u8>) -> Option<RequestView> {
    decode_query(after_last(url, QUESTION))
}

// ---------------------------------------------------------------------------
// Proofs
// ---------------------------------------------------------------------------
/// A `key=value` piece yields its value for its own key and nothing for another
/// key, as long as neither key holds `=`.
proof fn lemma_field_value(k2: Seq<u8>, v: Seq<u8>, key: Seq<u8>)
    requires
        forall|i: int| 0 <= i < k2.len() ==> k2[i] != EQUALS,
        forall|i: int| 0 <= i < key.len() ==> key[i] != EQUALS,
    ensures
        field_value(k2 + seq![EQUALS] + v, key) == if key == k2 {
            Some(v)
        } else {
            None
        },
{
    let p = k2 + seq![EQUALS] + v;
    if key == k2 {
        assert(p.subrange(0, key.len() as int) =~= key);
        assert(p.subrange(key.len() + 1 as int, p.len() as int) =~= v);
    } else if key.len() < k2.len() {
        assert(p[key.len() as int] == k2[key.len() as int]);
    } else if key.len() == k2.len() {
        assert(p.subrange(0, key.len() as int) =~= k2);
    } else {
        if p.len() > key.len() && p.subrange(0, key.len() as int) == key {
            assert(p.subrange(0, key.len() as int)[k2.len() as int] == p[k2.len() as int]);
        }
    }
}

/// Neither `&` nor `=` nor `?` occurs in `s`.
pub open spec fn plain(s: Seq<u8>) -> bool {
    forall|i: int| 0 <= i < s.len() ==> s[i] != AMP && s[i] != EQUALS && s[i] != QUESTION
}

/// Escaped text is plain ASCII.
proof fn lemma_escape_plain(s: Seq<u8>)
    ensures
        plain(escape(s)),
        all_ascii(escape(s)),
{
    lemma_escape_bytes(s);
    assert forall|i: int| 0 <= i < escape(s).len() implies escape(s)[i] != AMP && escape(s)[i]
        != EQUALS && escape(s)[i] != QUESTION by {
        assert(is_unreserved(escape(s)[i]) || escape(s)[i] == PERCENT);
    }
}

/// Decimal digits are plain ASCII.
proof fn lemma_decimal_plain(n: nat)
    ensures
        plain(decimal(n)),
        all_ascii(decimal(n)),
        decimal(n).len() >= 1,
{
    lemma_decimal_value(n);
    assert forall|i: int| 0 <= i < decimal(n).len() implies decimal(n)[i] != AMP && decimal(n)[i]
        != EQUALS && decimal(n)[i] != QUESTION by {
        assert(crate::text::is_digit(decimal(n)[i]));
    }
}

/// The wire key holds only ASCII and no `?`.
pub proof fn lemma_wire_ascii(r: RequestView)
    ensures
        all_ascii(wire_bytes(r)),
        forall|i: int| 0 <= i < wire_bytes(r).len() ==> wire_bytes(r)[i] != QUESTION,
{
    let w = wire_bytes(r);
    lemma_escape_plain(encode_utf8(r.src));
    lemma_decimal_plain(0);
    let e = escape(encode_utf8(r.src));
    assert forall|i: int| 0 <= i < w.len() implies w[i] < 128 && w[i] != QUESTION by {
        let head = key_src() + seq![EQUALS];
        let tail = seq![AMP] + key_op() + seq![EQUALS] + option_fields(r.option);
        assert(w =~= head + e + tail);
        if i < head.len() {
        } else if i < head.len() + e.len() {
            assert(w[i] == e[i - head.len()]);
        } else {
            let j = i - head.len() - e.len();
            assert(w[i] == tail[j]);
            match r.option {
                CachedImageOption::Resize(z) => {
                    lemma_decimal_plain(z.width as nat);
                    lemma_decimal_plain(z.height as nat);
                    lemma_decimal_plain(z.quality as nat);
                },
                CachedImageOption::Blur(b) => {
                    lemma_decimal_plain(b.width as nat);
                    lemma_decimal_plain(b.height as nat);
                    lemma_decimal_plain(b.svg_width as nat);
                    lemma_decimal_plain(b.svg_height as nat);
                    lemma_decimal_plain(b.sigma as nat);
                },
            }
            let t = tail;
            assert(t[j] < 128 && t[j] != QUESTION) by {
                lemma_tail_ascii(r.option);
            }
        }
    }
}

/// `&key=n` is ASCII without `?`.
proof fn lemma_number_field_ascii(key: Seq<u8>, n: nat)
    requires
        all_ascii(key),
        plain(key),
    ensures
        all_ascii(number_field(key, n)),
        forall|i: int| 0 <= i < number_field(key, n).len() ==> number_field(key, n)[i] != QUESTION,
{
    lemma_decimal_plain(n);
    let f = number_field(key, n);
    assert forall|i: int| 0 <= i < f.len() implies f[i] < 128 && f[i] != QUESTION by {
        let a = seq![AMP] + key + seq![EQUALS];
        assert(f =~= a + decimal(n));
        if i < a.len() {
            if i >= 1 && i < key.len() + 1 {
                assert(f[i] == key[i - 1]);
            }
        } else {
            assert(f[i] == decimal(n)[i - a.len()]);
        }
    }
}

/// What follows the source in a wire key is ASCII without `?`.
proof fn lemma_tail_ascii(o: CachedImageOption)
    ensures
        all_ascii(seq![AMP] + key_op() + seq![EQUALS] + option_fields(o)),
        forall|i: int|
            0 <= i < (seq![AMP] + key_op() + seq![EQUALS] + option_fields(o)).len() ==> (seq![AMP]
                + key_op() + seq![EQUALS] + option_fields(o))[i] != QUESTION,
{
    let ks = seq![key_w(), key_h(), key_q(), key_sw(), key_sh(), key_s()];
    assert forall|k: int| 0 <= k < ks.len() implies all_ascii(#[trigger] ks[k]) && plain(ks[k]) by {
    }
    let head = seq![AMP] + key_op() + seq![EQUALS];
    assert(all_ascii(head) && forall|i: int| 0 <= i < head.len() ==> head[i] != QUESTION);
    match o {
        CachedImageOption::Resize(z) => {
            let a = number_field(key_w(), z.width as nat);
            let b = number_field(key_h(), z.height as nat);
            let c = number_field(key_q(), z.quality as nat);
            lemma_number_field_ascii(key_w(), z.width as nat);
            lemma_number_field_ascii(key_h(), z.height as nat);
            lemma_number_field_ascii(key_q(), z.quality as nat);
            lemma_no_question_concat(head, tag_resize());
            lemma_no_question_concat(head + tag_resize(), a);
            lemma_no_question_concat(head + tag_resize() + a, b);
            lemma_no_question_concat(head + tag_resize() + a + b, c);
            assert(head + option_fields(o) =~= head + tag_resize() + a + b + c);
        },
        CachedImageOption::Blur(z) => {
            let a = number_field(key_w(), z.width as nat);
            let b = number_field(key_h(), z.height as nat);
            let c = number_field(key_sw(), z.svg_width as nat);
            let d = number_field(key_sh(), z.svg_height as nat);
            let e = number_field(key_s(), z.sigma as nat);
            lemma_number_field_ascii(key_w(), z.width as nat);
            lemma_number_field_ascii(key_h(), z.height as nat);
            lemma_number_field_ascii(key_sw(), z.svg_width as nat);
            lemma_number_field_ascii(key_sh(), z.svg_height as nat);
            lemma_number_field_ascii(key_s(), z.sigma as nat);
            lemma_no_question_concat(head, tag_blur());
            lemma_no_question_concat(head + tag_blur(), a);
            lemma_no_question_concat(head + tag_blur() + a, b);
            lemma_no_question_concat(head + tag_blur() + a + b, c);
            lemma_no_question_concat(head + tag_blur() + a + b + c, d);
            lemma_no_question_concat(head + tag_blur() + a + b + c + d, e);
            assert(head + option_fields(o) =~= head + tag_blur() + a + b + c + d + e);
        },
    }
}

/// ASCII without `?`, kept by concatenation.
proof fn lemma_no_question_concat(a: Seq<u8>, b: Seq<u8>)
    requires
        all_ascii(a),
        all_ascii(b),
        forall|i: int| 0 <= i < a.len() ==> a[i] != QUESTION,
        forall|i: int| 0 <= i < b.len() ==> b[i] != QUESTION,
    ensures
        all_ascii(a + b),
        forall|i: int| 0 <= i < (a + b).len() ==> (a + b)[i] != QUESTION,
{
    assert forall|i: int| 0 <= i < (a + b).len() implies (a + b)[i] < 128 && (a + b)[i]
        != QUESTION by {
        if i < a.len() {
            assert((a + b)[i] == a[i]);
        } else {
            assert((a + b)[i] == b[i - a.len()]);
        }
    }
}

/// The fields of a wire key, one `key=value` piece each.
pub open spec fn wire_pieces(r: RequestView) -> Seq<Seq<u8>> {
    let head = seq![
        key_src() + seq![EQUALS] + escape(encode_utf8(r.src)),
        key_op() + seq![EQUALS] + match r.option {
            CachedImageOption::Resize(_) => tag_resize(),
            CachedImageOption::Blur(_) => tag_blur(),
        },
    ];
    match r.option {
        CachedImageOption::Resize(z) => head + seq![
            key_w() + seq![EQUALS] + decimal(z.width as nat),
            key_h() + seq![EQUALS] + decimal(z.height as nat),
            key_q() + seq![EQUALS] + decimal(z.quality as nat),
        ],
        CachedImageOption::Blur(z) => head + seq![
            key_w() + seq![EQUALS] + decimal(z.width as nat),
            key_h() + seq![EQUALS] + decimal(z.height as nat),
            key_sw() + seq![EQUALS] + decimal(z.svg_width as nat),
            key_sh() + seq![EQUALS] + decimal(z.svg_height as nat),
            key_s() + seq![EQUALS] + decimal(z.sigma as nat),
        ],
    }
}

/// The field names and operation tags are plain.
proof fn lemma_keys_plain()
    ensures
        plain(key_src()),
        plain(key_op()),
        plain(key_w()),
        plain(key_h()),
        plain(key_q()),
        plain(key_sw()),
        plain(key_sh()),
        plain(key_s()),
        plain(tag_resize()),
        plain(tag_blur()),
{
}

/// `key=value` with plain key and value is plain.
proof fn lemma_piece_plain(k: Seq<u8>, v: Seq<u8>)
    requires
        plain(k),
        plain(v),
    ensures
        forall|i: int|
            0 <= i < (k + seq![EQUALS] + v).len() ==> (k + seq![EQUALS] + v)[i] != AMP,
{
    let p = k + seq![EQUALS] + v;
    assert forall|i: int| 0 <= i < p.len() implies p[i] != AMP by {
        if i < k.len() {
            assert(p[i] == k[i]);
        } else if i > k.len() {
            assert(p[i] == v[i - k.len() - 1]);
        }
    }
}

/// The pieces of a wire key as a `&`-joined sequence.
proof fn lemma_wire_prefix(r: RequestView)
    ensures
        wire_bytes(r) == wire_pieces(r)[0] + seq![AMP] + (wire_pieces(r)[1] + option_tail(r.option)),
        forall|i: int|
            0 <= i < wire_pieces(r)[0].len() ==> #[trigger] wire_pieces(r)[0][i] != AMP,
        forall|i: int|
            0 <= i < wire_pieces(r)[1].len() ==> #[trigger] wire_pieces(r)[1][i] != AMP,
{
    lemma_keys_plain();
    lemma_escape_plain(encode_utf8(r.src));
    lemma_piece_plain(key_src(), escape(encode_utf8(r.src)));
    let op = match r.option {
        CachedImageOption::Resize(_) => tag_resize(),
        CachedImageOption::Blur(_) => tag_blur(),
    };
    lemma_piece_plain(key_op(), op);
    assert(wire_bytes(r) =~= wire_pieces(r)[0] + seq![AMP] + (wire_pieces(r)[1] + option_tail(
        r.option,
    )));
}

/// What follows the `op` tag: the numeric fields.
pub open spec fn option_tail(o: CachedImageOption) -> Seq<u8> {
    match o {
        CachedImageOption::Resize(r) => number_field(key_w(), r.width as nat) + number_field(
            key_h(),
            r.height as nat,
        ) + number_field(key_q(), r.quality as nat),
        CachedImageOption::Blur(b) => number_field(key_w(), b.width as nat) + number_field(
            key_h(),
            b.height as nat,
        ) + number_field(key_sw(), b.svg_width as nat) + number_field(key_sh(), b.svg_height as nat)
            + number_field(key_s(), b.sigma as nat),
    }
}

/// `&key=n` pieces split off one by one.
proof fn lemma_split_number(p: Seq<u8>, key: Seq<u8>, n: nat, rest: Seq<u8>)
    requires
        plain(p) || forall|i: int| 0 <= i < p.len() ==> p[i] != AMP,
        plain(key),
    ensures
        split_on(p + (number_field(key, n) + rest), AMP) == seq![p] + split_on(
            key + seq![EQUALS] + decimal(n) + rest,
            AMP,
        ),
{
    if plain(p) {
        assert forall|i: int| 0 <= i < p.len() implies p[i] != AMP by {
        }
    }
    lemma_split_single(p, AMP);
    lemma_split_join(p, AMP, key + seq![EQUALS] + decimal(n) + rest);
    assert(p + (number_field(key, n) + rest) =~= p + seq![AMP] + (key + seq![EQUALS] + decimal(n)
        + rest));
}

/// The wire key splits into its pieces.
#[verifier::spinoff_prover]
proof fn lemma_wire_split(r: RequestView)
    ensures
        split_on(wire_bytes(r), AMP) == wire_pieces(r),
{
    let ps = wire_pieces(r);
    lemma_keys_plain();
    lemma_wire_prefix(r);
    lemma_split_join(ps[0], AMP, ps[1] + option_tail(r.option));
    lemma_split_single(ps[0], AMP);
    match r.option {
        CachedImageOption::Resize(z) => {
            lemma_decimal_plain(z.width as nat);
            lemma_decimal_plain(z.height as nat);
            lemma_decimal_plain(z.quality as nat);
            lemma_piece_plain(key_w(), decimal(z.width as nat));
            lemma_piece_plain(key_h(), decimal(z.height as nat));
            lemma_piece_plain(key_q(), decimal(z.quality as nat));
            let f2 = number_field(key_h(), z.height as nat);
            let f3 = number_field(key_q(), z.quality as nat);
            assert(ps[1] + option_tail(r.option) =~= ps[1] + (number_field(key_w(), z.width as nat)
                + (f2 + f3)));
            lemma_split_number(ps[1], key_w(), z.width as nat, f2 + f3);
            lemma_split_number(ps[2], key_h(), z.height as nat, f3);
            assert(key_w() + seq![EQUALS] + decimal(z.width as nat) + (f2 + f3) =~= ps[2] + (f2
                + f3));
            lemma_split_number(ps[3], key_q(), z.quality as nat, Seq::empty());
            assert(key_h() + seq![EQUALS] + decimal(z.height as nat) + f3 =~= ps[3] + (f3
                + Seq::empty()));
            assert(key_q() + seq![EQUALS] + decimal(z.quality as nat) + Seq::empty() =~= ps[4]);
            lemma_split_single(ps[4], AMP);
            assert(seq![ps[0]] + (seq![ps[1]] + (seq![ps[2]] + (seq![ps[3]] + seq![ps[4]])))
                =~= ps);
        },
        CachedImageOption::Blur(z) => {
            lemma_decimal_plain(z.width as nat);
            lemma_decimal_plain(z.height as nat);
            lemma_decimal_plain(z.svg_width as nat);
            lemma_decimal_plain(z.svg_height as nat);
            lemma_decimal_plain(z.sigma as nat);
            lemma_piece_plain(key_w(), decimal(z.width as nat));
            lemma_piece_plain(key_h(), decimal(z.height as nat));
            lemma_piece_plain(key_sw(), decimal(z.svg_width as nat));
            lemma_piece_plain(key_sh(), decimal(z.svg_height as nat));
            lemma_piece_plain(key_s(), decimal(z.sigma as nat));
            let f2 = number_field(key_h(), z.height as nat);
            let f3 = number_field(key_sw(), z.svg_width as nat);
            let f4 = number_field(key_sh(), z.svg_height as nat);
            let f5 = number_field(key_s(), z.sigma as nat);
            assert(ps[1] + option_tail(r.option) =~= ps[1] + (number_field(key_w(), z.width as nat)
                + (f2 + (f3 + (f4 + f5)))));
            lemma_split_number(ps[1], key_w(), z.width as nat, f2 + (f3 + (f4 + f5)));
            assert(key_w() + seq![EQUALS] + decimal(z.width as nat) + (f2 + (f3 + (f4 + f5)))
                =~= ps[2] + (f2 + (f3 + (f4 + f5))));
            lemma_split_number(ps[2], key_h(), z.height as nat, f3 + (f4 + f5));
            assert(key_h() + seq![EQUALS] + decimal(z.height as nat) + (f3 + (f4 + f5)) =~= ps[3]
                + (f3 + (f4 + f5)));
            lemma_split_number(ps[3], key_sw(), z.svg_width as nat, f4 + f5);
            assert(key_sw() + seq![EQUALS] + decimal(z.svg_width as nat) + (f4 + f5) =~= ps[4] + (
            f4 + f5));
            lemma_split_number(ps[4], key_sh(), z.svg_height as nat, f5);
            assert(key_sh() + seq![EQUALS] + decimal(z.svg_height as nat) + f5 =~= ps[5] + (f5
                + Seq::empty()));
            lemma_split_number(ps[5], key_s(), z.sigma as nat, Seq::empty());
            assert(key_s() + seq![EQUALS] + decimal(z.sigma as nat) + Seq::empty() =~= ps[6]);
            lemma_split_single(ps[6], AMP);
            assert(seq![ps[0]] + (seq![ps[1]] + (seq![ps[2]] + (seq![ps[3]] + (seq![ps[4]] + (
            seq![ps[5]] + seq![ps[6]]))))) =~= ps);
        },
    }
}

/// `key=value` pieces for parallel keys and values.
pub open spec fn keyed(ks: Seq<Seq<u8>>, vs: Seq<Seq<u8>>) -> Seq<Seq<u8>> {
    Seq::new(ks.len(), |i: int| ks[i] + seq![EQUALS] + vs[i])
}

/// Among pieces with pairwise different keys, a key finds its own value.
proof fn lemma_lookup_keyed(ks: Seq<Seq<u8>>, vs: Seq<Seq<u8>>, j: int)
    requires
        ks.len() == vs.len(),
        0 <= j < ks.len(),
        forall|i: int| 0 <= i < ks.len() ==> plain(#[trigger] ks[i]),
        forall|i: int| 0 <= i < ks.len() && i != j ==> #[trigger] ks[i] != ks[j],
    ensures
        lookup(keyed(ks, vs), ks[j]) == Some(vs[j]),
    decreases ks.len(),
{
    let n = ks.len() - 1;
    let ps = keyed(ks, vs);
    assert(ps.last() == ks[n] + seq![EQUALS] + vs[n]);
    lemma_field_value(ks[n], vs[n], ks[j]);
    if j < n {
        assert(ps.drop_last() =~= keyed(ks.drop_last(), vs.drop_last()));
        assert forall|i: int| 0 <= i < ks.drop_last().len() && i != j implies #[trigger] ks.drop_last()[i] != ks.drop_last()[j] by {
            assert(ks.drop_last()[i] == ks[i]);
        }
        assert forall|i: int| 0 <= i < ks.drop_last().len() implies plain(#[trigger] ks.drop_last()[i]) by {
            assert(ks.drop_last()[i] == ks[i]);
        }
        lemma_lookup_keyed(ks.drop_last(), vs.drop_last(), j);
    }
}

/// A number spelled by `decimal` reads back within any bound it meets.
proof fn lemma_number_back(n: nat, bound: nat)
    requires
        n <= bound,
    ensures
        decimal_at_most(decimal(n), bound) == Some(n),
{
    lemma_decimal_value(n);
}

/// Reading a wire key gives back the request it was made from.
pub proof fn lemma_decode_wire(r: RequestView)
    requires
        r.valid(),
    ensures
        decode_query(wire_bytes(r)) == Some(r),
{
    lemma_wire_split(r);
    lemma_keys_plain();
    let ps = wire_pieces(r);
    let e = escape(encode_utf8(r.src));
    lemma_unescape_escape(encode_utf8(r.src));
    encode_utf8_valid_utf8(r.src);
    encode_utf8_decode_utf8(r.src);
    assert(key_w()[0] != key_h()[0]);
    assert(key_w()[0] != key_q()[0]);
    assert(key_h()[0] != key_q()[0]);
    assert(key_src()[1] != key_sw()[1]);
    assert(key_src()[1] != key_sh()[1]);
    assert(key_sw()[1] != key_sh()[1]);
    assert(key_op()[0] != key_src()[0]);
    match r.option {
        CachedImageOption::Resize(z) => {
            let ks = seq![key_src(), key_op(), key_w(), key_h(), key_q()];
            let vs = seq![
                e,
                tag_resize(),
                decimal(z.width as nat),
                decimal(z.height as nat),
                decimal(z.quality as nat),
            ];
            assert(ps =~= keyed(ks, vs));
            assert forall|i: int| 0 <= i < ks.len() implies plain(#[trigger] ks[i]) by {
            }
            lemma_lookup_keyed(ks, vs, 0);
            lemma_lookup_keyed(ks, vs, 1);
            lemma_lookup_keyed(ks, vs, 2);
            lemma_lookup_keyed(ks, vs, 3);
            lemma_lookup_keyed(ks, vs, 4);
            lemma_number_back(z.width as nat, u32::MAX as nat);
            lemma_number_back(z.height as nat, u32::MAX as nat);
            lemma_number_back(z.quality as nat, MAX_QUALITY as nat);
            assert(tag_resize() != tag_blur()) by {
                assert(tag_resize()[0] != tag_blur()[0]);
            }
        },
        CachedImageOption::Blur(z) => {
            let ks = seq![key_src(), key_op(), key_w(), key_h(), key_sw(), key_sh(), key_s()];
            let vs = seq![
                e,
                tag_blur(),
                decimal(z.width as nat),
                decimal(z.height as nat),
                decimal(z.svg_width as nat),
                decimal(z.svg_height as nat),
                decimal(z.sigma as nat),
            ];
            assert(ps =~= keyed(ks, vs));
            assert forall|i: int| 0 <= i < ks.len() implies plain(#[trigger] ks[i]) by {
            }
            lemma_lookup_keyed(ks, vs, 0);
            lemma_lookup_keyed(ks, vs, 1);
            lemma_lookup_keyed(ks, vs, 2);
            lemma_lookup_keyed(ks, vs, 3);
            lemma_lookup_keyed(ks, vs, 4);
            lemma_lookup_keyed(ks, vs, 5);
            lemma_lookup_keyed(ks, vs, 6);
            lemma_number_back(z.width as nat, u32::MAX as nat);
            lemma_number_back(z.height as nat, u32::MAX as nat);
            lemma_number_back(z.svg_width as nat, u32::MAX as nat);
            lemma_number_back(z.svg_height as nat, u32::MAX as nat);
            lemma_number_back(z.sigma as nat, u8::MAX as nat);
            assert(tag_resize() != tag_blur()) by {
                assert(tag_resize()[0] != tag_blur()[0]);
            }
        },
    }
}

// ---------------------------------------------------------------------------
// Encoding and decoding
// ---------------------------------------------------------------------------
/// The first `n` of three bytes.
fn bytes_of(a: u8, b: u8, c: u8, n: usize) -> (r: Vec<u8>)
    requires
        1 <= n <= 3,
    ensures
        n == 1 ==> r@ == seq![a],
        n == 2 ==> r@ == seq![a, b],
        n == 3 ==> r@ == seq![a, b, c],
{
    let mut v: Vec<u8> = Vec::new();
    v.push(a);
    if n >= 2 {
        v.push(b);
    }
    if n >= 3 {
        v.push(c);
    }
    v
}

/// Appends `&key=n`.
fn push_number_field(out: &mut Vec<u8>, key: &[u8], n: u32)
    ensures
        final(out)@ == old(out)@ + number_field(key@, n as nat),
{
    out.push(AMP);
    append_bytes(out, key);
    out.push(EQUALS);
    push_decimal(out, n);
    assert(final(out)@ =~= old(out)@ + number_field(key@, n as nat));
}

/// Appends the fields that follow `op=`.
fn push_option_fields(out: &mut Vec<u8>, o: CachedImageOption)
    ensures
        final(out)@ == old(out)@ + option_fields(o),
{
    let kw = bytes_of(119, 0, 0, 1);
    let kh = bytes_of(104, 0, 0, 1);
    match o {
        CachedImageOption::Resize(z) => {
            out.push(114);
            push_number_field(out, kw.as_slice(), z.width);
            push_number_field(out, kh.as_slice(), z.height);
            let kq = bytes_of(113, 0, 0, 1);
            push_number_field(out, kq.as_slice(), z.quality as u32);
        },
        CachedImageOption::Blur(z) => {
            out.push(98);
            push_number_field(out, kw.as_slice(), z.width);
            push_number_field(out, kh.as_slice(), z.height);
            let ksw = bytes_of(115, 119, 0, 2);
            let ksh = bytes_of(115, 104, 0, 2);
            let ks = bytes_of(115, 0, 0, 1);
            push_number_field(out, ksw.as_slice(), z.svg_width);
            push_number_field(out, ksh.as_slice(), z.svg_height);
            push_number_field(out, ks.as_slice(), z.sigma as u32);
        },
    }
    assert(final(out)@ =~= old(out)@ + option_fields(o));
}

/// The number under `key` in the query `q`.
fn number_at(q: &[u8], key: &[u8], bound: u32) -> (r: Option<u32>)
    ensures
        r matches Some(x) ==> number_of(split_on(q@, AMP), key@, bound as nat) == Some(x as nat),
        r is None ==> number_of(split_on(q@, AMP), key@, bound as nat) is None,
{
    match find_field(q, AMP, key) {
        Some((a, b)) => parse_decimal(slice_subrange(q, a, b), bound),
        None => None,
    }
}

/// Reads the transform fields of a query, given its `op` value.
fn option_at(q: &[u8], op: &[u8]) -> (r: Option<CachedImageOption>)
    ensures
        r == option_of(split_on(q@, AMP), op@),
{
    let ghost ps = split_on(q@, AMP);
    let kw = bytes_of(119, 0, 0, 1);
    let kh = bytes_of(104, 0, 0, 1);
    let w = number_at(q, kw.as_slice(), u32::MAX);
    let h = number_at(q, kh.as_slice(), u32::MAX);
    if op.len() != 1 {
        assert(op@ != tag_resize() && op@ != tag_blur());
        return None;
    }
    if op[0] == 114 {
        assert(op@ =~= tag_resize());
        let kq = bytes_of(113, 0, 0, 1);
        let q = number_at(q, kq.as_slice(), MAX_QUALITY as u32);
        match (w, h, q) {
            (Some(w), Some(h), Some(q)) => Some(
                CachedImageOption::Resize(Resize { width: w, height: h, quality: q as u8 }),
            ),
            _ => None,
        }
    } else if op[0] == 98 {
        assert(op@ =~= tag_blur());
        assert(op@ != tag_resize()) by {
            assert(op@[0] != tag_resize()[0]);
        }
        let ksw = bytes_of(115, 119, 0, 2);
        let ksh = bytes_of(115, 104, 0, 2);
        let ks = bytes_of(115, 0, 0, 1);
        let sw = number_at(q, ksw.as_slice(), u32::MAX);
        let sh = number_at(q, ksh.as_slice(), u32::MAX);
        let s = number_at(q, ks.as_slice(), u8::MAX as u32);
        match (w, h, sw, sh, s) {
            (Some(w), Some(h), Some(sw), Some(sh), Some(s)) => Some(
                CachedImageOption::Blur(
                    Blur { width: w, height: h, svg_width: sw, svg_height: sh, sigma: s as u8 },
                ),
            ),
            _ => None,
        }
    } else {
        assert(op@ != tag_resize()) by {
            assert(op@[0] != tag_resize()[0]);
        }
        assert(op@ != tag_blur()) by {
            assert(op@[0] != tag_blur()[0]);
        }
        None
    }
}

/// Reads a request from a query string.
pub fn decode_query_bytes(q: &[u8]) -> (r: Result<CachedImage, DecodeError>)
    ensures
        match decode_query(q@) {
            Some(v) => r matches Ok(x) && x@ == v,
            None => r == Err::<CachedImage, DecodeError>(DecodeError::Malformed),
        },
{
    let ghost ps = split_on(q@, AMP);
    let ksrc = bytes_of(115, 114, 99, 3);
    let kop = bytes_of(111, 112, 0, 2);
    let src_range = find_field(q, AMP, ksrc.as_slice());
    let op_range = find_field(q, AMP, kop.as_slice());
    let (sa, sb) = match src_range {
        Some(ab) => ab,
        None => {
            return Err(DecodeError::Malformed);
        },
    };
    let (oa, ob) = match op_range {
        Some(ab) => ab,
        None => {
            return Err(DecodeError::Malformed);
        },
    };
    let raw = match unescape_range(q, sa, sb) {
        Some(v) => v,
        None => {
            return Err(DecodeError::Malformed);
        },
    };
    assert(raw.deep_view() =~= raw@);
    let src = match string_from_utf8(raw) {
        Some(s) => s,
        None => {
            return Err(DecodeError::Malformed);
        },
    };
    if src.as_str().is_empty() {
        return Err(DecodeError::Malformed);
    }
    match option_at(q, slice_subrange(q, oa, ob)) {
        Some(option) => Ok(CachedImage { src, option }),
        None => Err(DecodeError::Malformed),
    }
}

impl CachedImage {
    /// The wire key as bytes.
    pub fn wire_key(&self) -> (r: Vec<u8>)
        ensures
            r@ == wire_bytes(self@),
    {
        let mut out = bytes_of(115, 114, 99, 3);
        out.push(EQUALS);
        push_escaped(&mut out, self.src.as_str().as_bytes());
        out.push(AMP);
        out.push(111);
        out.push(112);
        out.push(EQUALS);
        push_option_fields(&mut out, self.option);
        assert(out@ =~= wire_bytes(self@));
        out
    }

    /// The wire key: the query string that names this request.
    pub fn encode_wire(&self) -> (r: String)
        ensures
            r@ == ascii_chars(wire_bytes(self@)),
            encode_utf8(r@) == wire_bytes(self@),
    {
        let v = self.wire_key();
        proof {
            lemma_wire_ascii(self@);
            lemma_ascii_utf8(v@);
        }
        match string_from_utf8(v) {
            Some(s) => s,
            None => String::new(),
        }
    }

    /// The URL that asks the handler at `handler_path` for this request:
    /// the path, `?`, then the wire key.
    pub fn get_url_encoded(&self, handler_path: &str) -> (r: String)
        ensures
            encode_utf8(r@) == encode_utf8(handler_path@) + seq![QUESTION] + wire_bytes(self@),
    {
        let mut out: Vec<u8> = Vec::new();
        append_bytes(&mut out, handler_path.as_bytes());
        out.push(QUESTION);
        let key = self.wire_key();
        append_bytes(&mut out, key.as_slice());
        let ghost head = encode_utf8(handler_path@) + seq![QUESTION];
        proof {
            lemma_wire_ascii(self@);
            lemma_ascii_utf8(key@);
            lemma_ascii_utf8(seq![QUESTION]);
            encode_utf8_valid_utf8(handler_path@);
            valid_utf8_concat(encode_utf8(handler_path@), seq![QUESTION]);
            valid_utf8_concat(head, key@);
            assert(out@ == head + key@);
        }
        match string_from_utf8(out) {
            Some(s) => s,
            None => String::new(),
        }
    }

    /// Reads the request named by a URL or a bare query string: only what
    /// follows the last `?` is read.
    pub fn from_url_encoded(url: &str) -> (r: Result<CachedImage, DecodeError>)
        ensures
            match decode_url(encode_utf8(url@)) {
                Some(v) => r matches Ok(x) && x@ == v,
                None => r == Err::<CachedImage, DecodeError>(DecodeError::Malformed),
            },
    {
        let bytes = url.as_bytes();
        let start = start_after_last(bytes, QUESTION);
        proof {
            crate::text::lemma_last_index_bounds(bytes@, QUESTION);
        }
        decode_query_bytes(slice_subrange(bytes, start, bytes.len()))
    }
}

/// What follows the last `?` of `a ? w` is `w`, when `w` holds no `?`.
pub proof fn lemma_after_last(a: Seq<u8>, w: Seq<u8>)
    requires
        forall|i: int| 0 <= i < w.len() ==> w[i] != QUESTION,
    ensures
        after_last(a + seq![QUESTION] + w, QUESTION) == w,
    decreases w.len(),
{
    let s = a + seq![QUESTION] + w;
    if w.len() == 0 {
        assert(s.last() == QUESTION);
        assert(s.subrange(a.len() + 1 as int, s.len() as int) =~= w);
    } else {
        lemma_after_last(a, w.drop_last());
        assert(s.drop_last() =~= a + seq![QUESTION] + w.drop_last());
        assert(last_index_of(s, QUESTION) == last_index_of(s.drop_last(), QUESTION));
        assert(s.subrange(a.len() + 1 as int, s.len() as int) =~= w);
        crate::text::lemma_last_index_bounds(a + seq![QUESTION] + w.drop_last(), QUESTION);
    }
}

/// A request turned into a URL and read back is the same request, whatever the
/// handler path.
pub proof fn lemma_url_round_trip(handler: Seq<char>, r: RequestView)
    requires
        r.valid(),
    ensures
        decode_url(encode_utf8(handler) + seq![QUESTION] + wire_bytes(r)) == Some(r),
{
    lemma_wire_ascii(r);
    lemma_after_last(encode_utf8(handler), wire_bytes(r));
    lemma_decode_wire(r);
}

/// A bare wire key read back gives the request it was made from.
pub proof fn lemma_wire_round_trip(r: RequestView)
    requires
        r.valid(),
    ensures
        decode_url(wire_bytes(r)) == Some(r),
{
    lemma_wire_ascii(r);
    crate::text::lemma_last_index_bounds(wire_bytes(r), QUESTION);
    if last_index_of(wire_bytes(r), QUESTION) >= 0 {
        assert(false);
    }
    assert(after_last(wire_bytes(r), QUESTION) =~= wire_bytes(r));
    lemma_decode_wire(r);
}

} // verus!
