//! Byte-level text helpers shared by the encodings: UTF-8 conversion,
//! decimal numbers, percent-escaping and `sep`-separated fields.
use vstd::prelude::*;
use vstd::utf8::*;

verus! {

broadcast use vstd::utf8::group_utf8_lib;

/// Copies `s` onto the end of `out`.
pub fn append_bytes(out: &mut Vec<u8>, s: &[u8])
    ensures
        final(out)@ == old(out)@ + s@,
{
    let mut i: usize = 0;
    while i < s.len()
        invariant
            i <= s@.len(),
            out@ == old(out)@ + s@.subrange(0, i as int),
        decreases s@.len() - i,
    {
        out.push(s[i]);
        i = i + 1;
        assert(s@.subrange(0, i as int) == s@.subrange(0, i - 1 as int).push(s@[i - 1]));
    }
    assert(s@.subrange(0, s@.len() as int) == s@);
}

/// Relies on `String::from_utf8`: it succeeds exactly on well-formed UTF-8
/// and then holds the characters those bytes encode.
#[verifier::external_body]
pub(crate) fn string_from_utf8(v: Vec<u8>) -> (r: Option<String>)
    ensures
        r is Some <==> valid_utf8(v@),
        r matches Some(s) ==> s@ == decode_utf8(v@),
{
    String::from_utf8(v).ok()
}

/// Every byte is below 128.
pub open spec fn all_ascii(b: Seq<u8>) -> bool {
    forall|i: int| 0 <= i < b.len() ==> b[i] < 128
}

/// The characters whose code points are the given (ASCII) bytes.
pub open spec fn ascii_chars(b: Seq<u8>) -> Seq<char> {
    Seq::new(b.len(), |i: int| b[i] as char)
}

/// ASCII bytes are well-formed UTF-8, and encode the characters of the same codes.
pub proof fn lemma_ascii_utf8(b: Seq<u8>)
    requires
        all_ascii(b),
    ensures
        valid_utf8(b),
        decode_utf8(b) == ascii_chars(b),
        encode_utf8(ascii_chars(b)) == b,
{
    let c = ascii_chars(b);
    assert forall|i: int| 0 <= i < c.len() implies (c[i] as u32) < 128 && c[i] as u8 == b[i] by {
        assert(c[i] == b[i] as char);
        assert((b[i] as char) as u32 == b[i] as u32);
    }
    assert(is_ascii_chars(c));
    is_ascii_chars_encode_utf8(c);
    assert(encode_utf8(c) =~= b);
    encode_utf8_valid_utf8(c);
    encode_utf8_decode_utf8(c);
}

// ---------------------------------------------------------------------------
// Decimal numbers
// ---------------------------------------------------------------------------
/// ASCII `'0'`.
pub const DIGIT_ZERO: u8 = 48;

/// An ASCII decimal digit.
pub open spec fn is_digit(b: u8) -> bool {
    DIGIT_ZERO <= b <= DIGIT_ZERO + 9
}

/// Every byte is a decimal digit.
pub open spec fn all_digits(v: Seq<u8>) -> bool {
    forall|i: int| 0 <= i < v.len() ==> is_digit(v[i])
}

/// The shortest decimal spelling of `n`, most significant digit first.
pub open spec fn decimal(n: nat) -> Seq<u8>
    decreases n,
{
    if n < 10 {
        seq![(DIGIT_ZERO + n) as u8]
    } else {
        decimal(n / 10).push((DIGIT_ZERO + n % 10) as u8)
    }
}

/// The number a string of digits spells (leading zeros allowed).
pub open spec fn digits_value(v: Seq<u8>) -> nat
    decreases v.len(),
{
    if v.len() == 0 {
        0
    } else {
        digits_value(v.drop_last()) * 10 + (v.last() - DIGIT_ZERO) as nat
    }
}

/// The number spelled by a non-empty run of decimal digits, if `v` is one.
pub open spec fn decimal_value(v: Seq<u8>) -> Option<nat> {
    if v.len() > 0 && all_digits(v) {
        Some(digits_value(v))
    } else {
        None
    }
}

/// `decimal_value` restricted to numbers that fit in `bound`.
pub open spec fn decimal_at_most(v: Seq<u8>, bound: nat) -> Option<nat> {
    match decimal_value(v) {
        Some(n) => if n <= bound {
            Some(n)
        } else {
            None
        },
        None => None,
    }
}

/// A decimal spelling reads back as the number it spells.
pub proof fn lemma_decimal_value(n: nat)
    ensures
        decimal_value(decimal(n)) == Some(n),
        all_ascii(decimal(n)),
        decimal(n).len() >= 1,
    decreases n,
{
    let d = decimal(n);
    if n < 10 {
        assert(d.drop_last() =~= Seq::<u8>::empty());
        assert(digits_value(d.drop_last()) == 0);
        assert(d.last() == (DIGIT_ZERO + n) as u8);
        assert((d.last() - DIGIT_ZERO) as nat == n);
    } else {
        lemma_decimal_value(n / 10);
        assert(d.drop_last() == decimal(n / 10));
        assert((d.last() - DIGIT_ZERO) as nat == n % 10);
        assert((n / 10) * 10 + n % 10 == n) by (nonlinear_arith);
        assert(all_digits(d)) by {
            assert forall|i: int| 0 <= i < d.len() implies is_digit(d[i]) by {
                if i < d.len() - 1 {
                    assert(d[i] == decimal(n / 10)[i]);
                }
            }
        }
    }
}

/// A prefix of a digit string spells at most what the whole string spells.
proof fn lemma_digits_prefix(v: Seq<u8>, i: int)
    requires
        0 <= i <= v.len(),
        all_digits(v),
    ensures
        digits_value(v.subrange(0, i)) <= digits_value(v),
    decreases v.len(),
{
    if i < v.len() {
        let w = v.drop_last();
        assert(all_digits(w)) by {
            assert forall|j: int| 0 <= j < w.len() implies is_digit(w[j]) by {
                assert(w[j] == v[j]);
            }
        }
        lemma_digits_prefix(w, i);
        assert(w.subrange(0, i) == v.subrange(0, i));
    } else {
        assert(v.subrange(0, i) == v);
    }
}

/// Appends the decimal spelling of `n`.
pub fn push_decimal(out: &mut Vec<u8>, n: u32)
    ensures
        final(out)@ == old(out)@ + decimal(n as nat),
    decreases n,
{
    if n >= 10 {
        push_decimal(out, n / 10);
    }
    let d: u8 = (n % 10) as u8;
    out.push(DIGIT_ZERO + d);
    proof {
        if n >= 10 {
            assert(decimal(n as nat) == decimal((n / 10) as nat).push((DIGIT_ZERO + n % 10) as u8));
        }
    }
    assert(final(out)@ =~= old(out)@ + decimal(n as nat));
}

/// Reads a decimal number no larger than `bound`.
pub fn parse_decimal(v: &[u8], bound: u32) -> (r: Option<u32>)
    ensures
        r matches Some(x) ==> decimal_at_most(v@, bound as nat) == Some(x as nat),
        r is None ==> decimal_at_most(v@, bound as nat) is None,
{
    let mut acc: u64 = 0;
    let mut i: usize = 0;
    while i < v.len()
        invariant
            i <= v@.len(),
            acc <= bound,
            acc == digits_value(v@.subrange(0, i as int)),
            all_digits(v@.subrange(0, i as int)),
        decreases v@.len() - i,
    {
        let b = v[i];
        if b < DIGIT_ZERO || b > DIGIT_ZERO + 9 {
            assert(!all_digits(v@));
            return None;
        }
        let next: u64 = acc * 10 + (b - DIGIT_ZERO) as u64;
        proof {
            let p = v@.subrange(0, i + 1);
            assert(p.drop_last() == v@.subrange(0, i as int));
            assert(all_digits(p)) by {
                assert forall|j: int| 0 <= j < p.len() implies is_digit(p[j]) by {
                    if j < i {
                        assert(p[j] == v@.subrange(0, i as int)[j]);
                    }
                }
            }
        }
        if next > bound as u64 {
            proof {
                if all_digits(v@) {
                    lemma_digits_prefix(v@, i + 1);
                }
            }
            return None;
        }
        acc = next;
        i = i + 1;
    }
    assert(v@.subrange(0, v@.len() as int) == v@);
    if i == 0 {
        None
    } else {
        Some(acc as u32)
    }
}

// ---------------------------------------------------------------------------
// Percent-escaping
// ---------------------------------------------------------------------------
/// ASCII `'%'`.
pub const PERCENT: u8 = 37;

/// Bytes written as themselves: ASCII letters, digits and `- . _ ~ /`.
pub open spec fn is_unreserved(b: u8) -> bool {
    ||| 65 <= b <= 90
    ||| 97 <= b <= 122
    ||| 48 <= b <= 57
    ||| b == 45
    ||| b == 46
    ||| b == 95
    ||| b == 126
    ||| b == 47
}

/// The upper-case hexadecimal digit for `n < 16`.
pub open spec fn hex_digit(n: u8) -> u8 {
    if n < 10 {
        (48 + n) as u8
    } else {
        (55 + n) as u8
    }
}

/// The value of a hexadecimal digit of either case.
pub open spec fn hex_value(b: u8) -> Option<u8> {
    if 48 <= b <= 57 {
        Some((b - 48) as u8)
    } else if 65 <= b <= 70 {
        Some((b - 55) as u8)
    } else if 97 <= b <= 102 {
        Some((b - 87) as u8)
    } else {
        None
    }
}

/// One byte, escaped: itself if unreserved, else `%` and two hex digits.
pub open spec fn escape_byte(b: u8) -> Seq<u8> {
    if is_unreserved(b) {
        seq![b]
    } else {
        seq![PERCENT, hex_digit(b / 16), hex_digit(b % 16)]
    }
}

/// Every byte of `s`, escaped.
pub open spec fn escape(s: Seq<u8>) -> Seq<u8>
    decreases s.len(),
{
    if s.len() == 0 {
        Seq::empty()
    } else {
        escape(s.drop_last()) + escape_byte(s.last())
    }
}

/// Undoes escaping: `%` must be followed by two hex digits; other bytes stand for themselves.
pub open spec fn unescape(s: Seq<u8>) -> Option<Seq<u8>>
    decreases s.len(),
{
    if s.len() == 0 {
        Some(Seq::empty())
    } else if s[0] == PERCENT {
        if s.len() >= 3 && hex_value(s[1]) is Some && hex_value(s[2]) is Some {
            match unescape(s.subrange(3, s.len() as int)) {
                Some(rest) => Some(
                    seq![(hex_value(s[1])->0 * 16 + hex_value(s[2])->0) as u8] + rest,
                ),
                None => None,
            }
        } else {
            None
        }
    } else {
        match unescape(s.drop_first()) {
            Some(rest) => Some(seq![s[0]] + rest),
            None => None,
        }
    }
}

/// `prefix` put in front of an optional sequence.
pub open spec fn prepend(prefix: Seq<u8>, o: Option<Seq<u8>>) -> Option<Seq<u8>> {
    match o {
        Some(rest) => Some(prefix + rest),
        None => None,
    }
}

/// Escaping a byte in front of a sequence escapes it in front of the rest.
proof fn lemma_escape_cons(x: u8, t: Seq<u8>)
    ensures
        escape(seq![x] + t) == escape_byte(x) + escape(t),
    decreases t.len(),
{
    let s = seq![x] + t;
    if t.len() == 0 {
        assert(s.drop_last() =~= Seq::<u8>::empty());
        assert(s.last() == x);
        assert(escape(s.drop_last()) == Seq::<u8>::empty());
        assert(escape(t) == Seq::<u8>::empty());
        assert(escape(s) =~= escape_byte(x) + escape(t));
    } else {
        lemma_escape_cons(x, t.drop_last());
        assert(s.drop_last() =~= seq![x] + t.drop_last());
        assert(s.last() == t.last());
        assert(escape(s) == escape(s.drop_last()) + escape_byte(s.last()));
        assert(escape(t) == escape(t.drop_last()) + escape_byte(t.last()));
        assert(escape(s) =~= escape_byte(x) + escape(t));
    }
}

/// Escaped text holds only unreserved bytes and `%`, so no separator.
pub proof fn lemma_escape_bytes(s: Seq<u8>)
    ensures
        forall|i: int|
            0 <= i < escape(s).len() ==> (is_unreserved(#[trigger] escape(s)[i]) || escape(s)[i]
                == PERCENT),
        all_ascii(escape(s)),
    decreases s.len(),
{
    if s.len() > 0 {
        lemma_escape_bytes(s.drop_last());
        let a = escape(s.drop_last());
        let b = escape_byte(s.last());
        assert forall|i: int| 0 <= i < escape(s).len() implies (is_unreserved(
            #[trigger] escape(s)[i],
        ) || escape(s)[i] == PERCENT) && escape(s)[i] < 128 by {
            if i >= a.len() {
                assert(escape(s)[i] == b[i - a.len()]);
            } else {
                assert(escape(s)[i] == a[i]);
            }
        }
    }
}

/// Unescaping undoes escaping.
pub proof fn lemma_unescape_escape(s: Seq<u8>)
    ensures
        unescape(escape(s)) == Some(s),
    decreases s.len(),
{
    if s.len() > 0 {
        let x = s[0];
        let t = s.drop_first();
        assert(s =~= seq![x] + t);
        lemma_escape_cons(x, t);
        lemma_unescape_escape(t);
        let e = escape_byte(x) + escape(t);
        if is_unreserved(x) {
            assert(e.drop_first() =~= escape(t));
            assert(unescape(e) == Some(seq![x] + t));
        } else {
            let hi = (x / 16) as u8;
            let lo = (x % 16) as u8;
            assert(hex_value(hex_digit(hi)) == Some(hi));
            assert(hex_value(hex_digit(lo)) == Some(lo));
            assert(e.subrange(3, e.len() as int) =~= escape(t));
            assert((hi * 16 + lo) as u8 == x);
            assert(unescape(e) == Some(seq![x] + t));
        }
    }
}

/// Appends the escaped form of `s`.
pub fn push_escaped(out: &mut Vec<u8>, s: &[u8])
    ensures
        final(out)@ == old(out)@ + escape(s@),
{
    let mut i: usize = 0;
    while i < s.len()
        invariant
            i <= s@.len(),
            out@ == old(out)@ + escape(s@.subrange(0, i as int)),
        decreases s@.len() - i,
    {
        let b = s[i];
        let keep = (65 <= b && b <= 90) || (97 <= b && b <= 122) || (48 <= b && b <= 57) || b == 45
            || b == 46 || b == 95 || b == 126 || b == 47;
        if keep {
            out.push(b);
        } else {
            out.push(PERCENT);
            out.push(hex_char(b / 16));
            out.push(hex_char(b % 16));
        }
        proof {
            let p = s@.subrange(0, i + 1);
            assert(p.drop_last() == s@.subrange(0, i as int));
            assert(p.last() == b);
        }
        i = i + 1;
        assert(out@ =~= old(out)@ + escape(s@.subrange(0, i as int)));
    }
    assert(s@.subrange(0, s@.len() as int) == s@);
}

/// The upper-case hex digit for `n`.
fn hex_char(n: u8) -> (r: u8)
    requires
        n < 16,
    ensures
        r == hex_digit(n),
{
    if n < 10 {
        48 + n
    } else {
        55 + n
    }
}

/// The value of a hex digit, if `b` is one.
fn read_hex(b: u8) -> (r: Option<u8>)
    ensures
        r == hex_value(b),
{
    if 48 <= b && b <= 57 {
        Some(b - 48)
    } else if 65 <= b && b <= 70 {
        Some(b - 55)
    } else if 97 <= b && b <= 102 {
        Some(b - 87)
    } else {
        None
    }
}

/// Decodes escaped bytes `s[start..end]`.
pub fn unescape_range(s: &[u8], start: usize, end: usize) -> (r: Option<Vec<u8>>)
    requires
        start <= end <= s@.len(),
    ensures
        r.deep_view() == unescape(s@.subrange(start as int, end as int)),
{
    let mut out: Vec<u8> = Vec::new();
    let mut i: usize = start;
    while i < end
        invariant
            start <= i <= end <= s@.len(),
            unescape(s@.subrange(start as int, end as int)) == prepend(
                out@,
                unescape(s@.subrange(i as int, end as int)),
            ),
        decreases end - i,
    {
        let rest = Ghost(s@.subrange(i as int, end as int));
        if s[i] == PERCENT {
            if end - i < 3 {
                return None;
            }
            let hi = read_hex(s[i + 1]);
            let lo = read_hex(s[i + 2]);
            match (hi, lo) {
                (Some(h), Some(l)) => {
                    out.push(h * 16 + l);
                    proof {
                        assert(rest@.subrange(3, rest@.len() as int) =~= s@.subrange(
                            i + 3,
                            end as int,
                        ));
                        assert(rest@[1] == s@[i + 1]);
                        assert(rest@[2] == s@[i + 2]);
                    }
                    i = i + 3;
                },
                _ => {
                    assert(rest@[1] == s@[i + 1]);
                    assert(rest@[2] == s@[i + 2]);
                    return None;
                },
            }
        } else {
            out.push(s[i]);
            assert(rest@.drop_first() =~= s@.subrange(i + 1, end as int));
            i = i + 1;
        }
        proof {
            let o = unescape(s@.subrange(i as int, end as int));
            if o is Some {
                assert(prepend(out@, o) == prepend(out@.drop_last(), prepend(seq![out@.last()], o)))
                    by {
                    assert(out@ =~= out@.drop_last() + seq![out@.last()]);
                    assert(out@.drop_last() + (seq![out@.last()] + o->0) =~= out@ + o->0);
                }
            }
        }
    }
    assert(s@.subrange(end as int, end as int) =~= Seq::<u8>::empty());
    assert(out@ + Seq::<u8>::empty() =~= out@);
    Some(out)
}

// ---------------------------------------------------------------------------
// Separated fields
// ---------------------------------------------------------------------------
/// ASCII `'='`.
pub const EQUALS: u8 = 61;

/// The pieces of `s` between occurrences of `sep`; there is always at least one.
pub open spec fn split_on(s: Seq<u8>, sep: u8) -> Seq<Seq<u8>>
    decreases s.len(),
{
    if s.len() == 0 {
        seq![Seq::empty()]
    } else {
        let p = split_on(s.drop_last(), sep);
        if s.last() == sep {
            p.push(Seq::empty())
        } else {
            p.update(p.len() - 1, p.last().push(s.last()))
        }
    }
}

/// The value of a `key=value` piece for the given key.
pub open spec fn field_value(p: Seq<u8>, key: Seq<u8>) -> Option<Seq<u8>> {
    if p.len() > key.len() && p.subrange(0, key.len() as int) == key && p[key.len() as int]
        == EQUALS {
        Some(p.subrange(key.len() + 1 as int, p.len() as int))
    } else {
        None
    }
}

/// The value of the last piece that carries `key`.
pub open spec fn lookup(pieces: Seq<Seq<u8>>, key: Seq<u8>) -> Option<Seq<u8>>
    decreases pieces.len(),
{
    if pieces.len() == 0 {
        None
    } else {
        match field_value(pieces.last(), key) {
            Some(v) => Some(v),
            None => lookup(pieces.drop_last(), key),
        }
    }
}

/// The position of the last `b` in `s`, or -1.
pub open spec fn last_index_of(s: Seq<u8>, b: u8) -> int
    decreases s.len(),
{
    if s.len() == 0 {
        -1
    } else if s.last() == b {
        s.len() - 1
    } else {
        last_index_of(s.drop_last(), b)
    }
}

/// What follows the last `b` in `s`; all of `s` when there is none.
pub open spec fn after_last(s: Seq<u8>, b: u8) -> Seq<u8> {
    s.subrange(last_index_of(s, b) + 1, s.len() as int)
}

/// `r` marks a range of `s` holding exactly `o`, or is absent exactly when `o` is.
pub open spec fn marks(s: Seq<u8>, r: Option<(usize, usize)>, o: Option<Seq<u8>>) -> bool {
    match o {
        Some(v) => r matches Some(ab) && ab.0 <= ab.1 <= s.len() && s.subrange(
            ab.0 as int,
            ab.1 as int,
        ) == v,
        None => r is None,
    }
}

/// A split has at least one piece.
pub proof fn lemma_split_len(s: Seq<u8>, sep: u8)
    ensures
        split_on(s, sep).len() >= 1,
    decreases s.len(),
{
    if s.len() > 0 {
        lemma_split_len(s.drop_last(), sep);
    }
}

/// The last `b` is in range, is a `b`, and no `b` follows it.
pub proof fn lemma_last_index_bounds(s: Seq<u8>, b: u8)
    ensures
        -1 <= last_index_of(s, b) < s.len(),
        last_index_of(s, b) >= 0 ==> s[last_index_of(s, b)] == b,
        forall|i: int| last_index_of(s, b) < i < s.len() ==> s[i] != b,
    decreases s.len(),
{
    if s.len() > 0 && s.last() != b {
        lemma_last_index_bounds(s.drop_last(), b);
        assert forall|i: int| last_index_of(s, b) < i < s.len() implies s[i] != b by {
            if i < s.len() - 1 {
                assert(s[i] == s.drop_last()[i]);
            }
        }
    }
}

/// A piece without the separator splits into itself.
pub proof fn lemma_split_single(s: Seq<u8>, sep: u8)
    requires
        forall|i: int| 0 <= i < s.len() ==> s[i] != sep,
    ensures
        split_on(s, sep) == seq![s],
    decreases s.len(),
{
    if s.len() > 0 {
        assert forall|i: int| 0 <= i < s.drop_last().len() implies s.drop_last()[i] != sep by {
            assert(s.drop_last()[i] == s[i]);
        }
        lemma_split_single(s.drop_last(), sep);
        assert(s.drop_last().push(s.last()) =~= s);
        assert(split_on(s, sep) =~= seq![s]);
    } else {
        assert(s =~= Seq::<u8>::empty());
    }
}

/// Splitting a concatenation joined by the separator concatenates the splits.
pub proof fn lemma_split_join(a: Seq<u8>, sep: u8, b: Seq<u8>)
    ensures
        split_on(a + seq![sep] + b, sep) == split_on(a, sep) + split_on(b, sep),
    decreases b.len(),
{
    let s = a + seq![sep] + b;
    if b.len() == 0 {
        assert(s.drop_last() =~= a);
        assert(split_on(s, sep) =~= split_on(a, sep) + split_on(b, sep));
    } else {
        lemma_split_join(a, sep, b.drop_last());
        lemma_split_len(b.drop_last(), sep);
        lemma_split_len(a, sep);
        assert(s.drop_last() =~= a + seq![sep] + b.drop_last());
        assert(s.last() == b.last());
        let pa = split_on(a, sep);
        let pb = split_on(b.drop_last(), sep);
        if b.last() == sep {
            assert((pa + pb).push(Seq::empty()) =~= pa + pb.push(Seq::empty()));
        } else {
            assert((pa + pb).update((pa + pb).len() - 1, (pa + pb).last().push(b.last())) =~= pa
                + pb.update(pb.len() - 1, pb.last().push(b.last())));
        }
    }
}

/// Whether `s[start..end]` is `key` followed by `=`; if so, the value's range.
fn field_at(s: &[u8], start: usize, end: usize, key: &[u8]) -> (r: Option<(usize, usize)>)
    requires
        start <= end <= s@.len(),
    ensures
        marks(s@, r, field_value(s@.subrange(start as int, end as int), key@)),
{
    let ghost p = s@.subrange(start as int, end as int);
    let klen = key.len();
    if end - start <= klen {
        return None;
    }
    let mut j: usize = 0;
    while j < klen
        invariant
            j <= klen == key@.len(),
            start + klen < end <= s@.len(),
            p == s@.subrange(start as int, end as int),
            p.subrange(0, j as int) == key@.subrange(0, j as int),
        decreases klen - j,
    {
        if s[start + j] != key[j] {
            assert(p.subrange(0, klen as int)[j as int] == p[j as int]);
            assert(p.subrange(0, klen as int) != key@);
            return None;
        }
        assert(p.subrange(0, j + 1) =~= key@.subrange(0, j + 1));
        j = j + 1;
    }
    assert(key@.subrange(0, klen as int) == key@);
    if s[start + klen] != EQUALS {
        return None;
    }
    assert(p.subrange(klen + 1, p.len() as int) =~= s@.subrange(
        start + klen + 1,
        end as int,
    ));
    Some((start + klen + 1, end))
}

/// Finds the value of the last `key=value` piece of `s` split on `sep`.
pub fn find_field(s: &[u8], sep: u8, key: &[u8]) -> (r: Option<(usize, usize)>)
    ensures
        marks(s@, r, lookup(split_on(s@, sep), key@)),
{
    let mut found: Option<(usize, usize)> = None;
    let mut start: usize = 0;
    let mut i: usize = 0;
    while i < s.len()
        invariant
            start <= i <= s@.len(),
            split_on(s@.subrange(0, i as int), sep).len() >= 1,
            split_on(s@.subrange(0, i as int), sep).last() == s@.subrange(start as int, i as int),
            marks(s@, found, lookup(split_on(s@.subrange(0, i as int), sep).drop_last(), key@)),
        decreases s@.len() - i,
    {
        let ghost pre = split_on(s@.subrange(0, i as int), sep);
        assert(s@.subrange(0, i + 1).drop_last() =~= s@.subrange(0, i as int));
        if s[i] == sep {
            let here = field_at(s, start, i, key);
            if here.is_some() {
                found = here;
            }
            start = i + 1;
            proof {
                assert(split_on(s@.subrange(0, i + 1), sep) == pre.push(Seq::empty()));
                assert(pre.push(Seq::empty()).drop_last() =~= pre);
                assert(s@.subrange(start as int, i + 1) =~= Seq::<u8>::empty());
            }
        } else {
            proof {
                let next = pre.update(pre.len() - 1, pre.last().push(s@[i as int]));
                assert(split_on(s@.subrange(0, i + 1), sep) == next);
                assert(next.drop_last() =~= pre.drop_last());
                assert(next.last() =~= s@.subrange(start as int, i + 1));
            }
        }
        i = i + 1;
    }
    assert(s@.subrange(0, s@.len() as int) == s@);
    let last = field_at(s, start, s.len(), key);
    if last.is_some() {
        last
    } else {
        found
    }
}

/// The index just after the last `b` in `s` (0 when there is none).
pub fn start_after_last(s: &[u8], b: u8) -> (r: usize)
    ensures
        r == last_index_of(s@, b) + 1,
{
    let mut i: usize = s.len();
    assert(s@.subrange(0, i as int) == s@);
    while i > 0 && s[i - 1] != b
        invariant
            i <= s@.len(),
            last_index_of(s@, b) == last_index_of(s@.subrange(0, i as int), b),
        decreases i,
    {
        assert(s@.subrange(0, i as int).drop_last() =~= s@.subrange(0, i - 1));
        i = i - 1;
    }
    if i > 0 {
        assert(s@.subrange(0, i as int).last() == s@[i - 1]);
    }
    i
}

} // verus!
