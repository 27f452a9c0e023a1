//! The `application/x-www-form-urlencoded` byte encoding and the
//! specification of whole query strings as sequences of entries.

use vstd::prelude::*;
use vstd::utf8::encode_utf8;

verus! {

/// One logical segment of a query string: a `key=value` pair or a bare key.
/// Keys and values are kept as the character sequences handed in by the
/// caller; the encoding specifications below say how they appear in the
/// final string.
pub enum Entry {
    Pair { key: Seq<char>, value: Seq<char> },
    KeyOnly { key: Seq<char> },
}

/// Bytes that pass through the form-urlencoded encoding unchanged:
/// ASCII alphanumerics and `*`, `-`, `.`, `_`.
pub open spec fn is_form_safe_byte(b: u8) -> bool {
    ||| (48 <= b && b <= 57)
    ||| (65 <= b && b <= 90)
    ||| (97 <= b && b <= 122)
    ||| b == 42
    ||| b == 45
    ||| b == 46
    ||| b == 95
}

/// The uppercase hexadecimal digit for a value below 16.
pub open spec fn hex_upper_digit(n: u8) -> char
    recommends
        n < 16,
{
    if n < 10 {
        (48 + n) as char
    } else {
        (55 + n) as char
    }
}

/// How a single byte appears in the encoded output: safe bytes pass
/// through, a space becomes `+`, and every other byte becomes `%XX`
/// with uppercase hexadecimal digits.
pub open spec fn encoded_byte(b: u8) -> Seq<char> {
    if is_form_safe_byte(b) {
        seq![b as char]
    } else if b == 32 {
        seq!['+']
    } else {
        seq!['%', hex_upper_digit(b / 16), hex_upper_digit(b % 16)]
    }
}

/// The encoding of a byte string: each byte's encoding, concatenated in order.
pub open spec fn encoded_bytes(bytes: Seq<u8>) -> Seq<char>
    decreases bytes.len(),
{
    if bytes.len() == 0 {
        Seq::empty()
    } else {
        encoded_bytes(bytes.drop_last()) + encoded_byte(bytes.last())
    }
}

/// The encoding of a character string: its UTF-8 bytes, percent-encoded.
pub open spec fn encoded_str(s: Seq<char>) -> Seq<char> {
    encoded_bytes(encode_utf8(s))
}

/// How one entry appears in the encoded output.
pub open spec fn entry_encoding(e: Entry) -> Seq<char> {
    match e {
        Entry::Pair { key, value } => encoded_str(key) + seq!['='] + encoded_str(value),
        Entry::KeyOnly { key } => encoded_str(key),
    }
}

/// The whole query string for a sequence of entries. A separator `&` is
/// written before an entry exactly when the output built so far is
/// non-empty, which matches the incremental behaviour of the accumulator
/// — also for an entry whose own encoding is empty (a bare empty key):
/// after a non-empty buffer it still gets its separator, while at the
/// start it contributes nothing at all.
pub open spec fn query_encoding(entries: Seq<Entry>) -> Seq<char>
    decreases entries.len(),
{
    if entries.len() == 0 {
        Seq::empty()
    } else {
        let prefix = query_encoding(entries.drop_last());
        let segment = entry_encoding(entries.last());
        if prefix.len() == 0 {
            segment
        } else {
            prefix + seq!['&'] + segment
        }
    }
}

/// Whether every entry of a sequence is a `key=value` pair.
pub open spec fn pairs_only(entries: Seq<Entry>) -> bool {
    forall|i: int| 0 <= i < entries.len() ==> entries[i] is Pair
}

/// The encoding of a non-empty sequence of pairs is never empty: every
/// pair's segment contains at least the `=` sign.
pub proof fn lemma_pairs_encoding_nonempty(entries: Seq<Entry>)
    requires
        pairs_only(entries),
        entries.len() > 0,
    ensures
        query_encoding(entries).len() > 0,
{
    assert(entries.last() is Pair);
}

/// How the encoding of a concatenation relates to the encodings of its
/// halves, when the second half consists of pairs: an empty first half
/// contributes nothing, and otherwise a single `&` joins the two.
pub proof fn lemma_query_encoding_concat(a: Seq<Entry>, b: Seq<Entry>)
    requires
        pairs_only(b),
    ensures
        query_encoding(a).len() == 0 ==> query_encoding(a + b) == query_encoding(b),
        query_encoding(a).len() > 0 && b.len() == 0 ==> query_encoding(a + b) == query_encoding(
            a,
        ),
        query_encoding(a).len() > 0 && b.len() > 0 ==> query_encoding(a + b) == query_encoding(a)
            + seq!['&'] + query_encoding(b),
    decreases b.len(),
{
    if b.len() == 0 {
        assert(a + b =~= a);
    } else {
        let bp = b.drop_last();
        let e = b.last();
        assert(pairs_only(bp));
        lemma_query_encoding_concat(a, bp);
        assert((a + b).drop_last() =~= a + bp);
        assert((a + b).last() == e);
        if query_encoding(a).len() == 0 {
            assert(query_encoding(a + b) == query_encoding(b));
        } else {
            if bp.len() == 0 {
                assert(bp =~= Seq::<Entry>::empty());
                assert(query_encoding(bp) == Seq::<char>::empty());
                assert(query_encoding(b) == entry_encoding(e));
                assert(query_encoding(a + b) == query_encoding(a) + seq!['&'] + query_encoding(b));
            } else {
                lemma_pairs_encoding_nonempty(bp);
                assert(query_encoding(a + bp) == query_encoding(a) + seq!['&'] + query_encoding(
                    bp,
                ));
                assert(query_encoding(a + bp).len() > 0);
                assert(query_encoding(b) == query_encoding(bp) + seq!['&'] + entry_encoding(e));
                assert(query_encoding(a) + seq!['&'] + (query_encoding(bp) + seq!['&']
                    + entry_encoding(e)) =~= (query_encoding(a) + seq!['&'] + query_encoding(bp))
                    + seq!['&'] + entry_encoding(e));
            }
        }
    }
}

/// Law: the query string for a single appended pair is `key=value`, with
/// both parts percent-encoded.
pub proof fn lemma_single_pair_query(key: Seq<char>, value: Seq<char>)
    ensures
        query_encoding(seq![Entry::Pair { key, value }]) == encoded_str(key) + seq!['=']
            + encoded_str(value),
{
    let entries = seq![Entry::Pair { key, value }];
    assert(entries.drop_last() =~= Seq::<Entry>::empty());
    assert(entries.last() == Entry::Pair { key, value });
    assert(query_encoding(Seq::<Entry>::empty()) == Seq::<char>::empty());
}

/// The encoding of one byte never contains the separators `=` or `&`:
/// they are not in the safe set, a space becomes `+`, and the escape
/// uses `%` and uppercase hexadecimal digits only.
proof fn lemma_encoded_byte_separator_free(b: u8)
    ensures
        forall|i: int|
            0 <= i < encoded_byte(b).len() ==> #[trigger] encoded_byte(b)[i] != '='
                && encoded_byte(b)[i] != '&',
{
    if is_form_safe_byte(b) {
        assert(encoded_byte(b)[0] == b as char);
        assert(b as char != '=' && b as char != '&') by {
            assert(b != 61 && b != 38);
            assert((b as char) as u8 == b);
            assert('=' as u8 == 61 && '&' as u8 == 38);
        }
    } else if b == 32 {
        assert(encoded_byte(b)[0] == '+');
    } else {
        assert(encoded_byte(b)[0] == '%');
        lemma_hex_digit_separator_free(b / 16);
        lemma_hex_digit_separator_free(b % 16);
    }
}

/// An uppercase hexadecimal digit is never `=` or `&`.
proof fn lemma_hex_digit_separator_free(n: u8)
    requires
        n < 16,
    ensures
        hex_upper_digit(n) != '=',
        hex_upper_digit(n) != '&',
{
    let c = hex_upper_digit(n);
    assert(c as u8 != 61 && c as u8 != 38) by {
        if n < 10 {
            assert(c == (48 + n) as char);
            assert(c as u8 == 48 + n);
        } else {
            assert(c == (55 + n) as char);
            assert(c as u8 == 55 + n);
        }
    }
    assert('=' as u8 == 61 && '&' as u8 == 38);
}

/// A character that some safe byte passes through as: ASCII and in the
/// safe set.
pub open spec fn is_form_safe_char(c: char) -> bool {
    (c as u32) < 128 && is_form_safe_byte(c as u8)
}

/// A hexadecimal digit as the escape sequences use them: `0`-`9` or
/// `A`-`F`.
pub open spec fn is_hex_digit(c: char) -> bool {
    (48 <= c as u32 && c as u32 <= 57) || (65 <= c as u32 && c as u32 <= 70)
}

/// The value of a hexadecimal digit.
pub open spec fn hex_digit_value(c: char) -> u8
    recommends
        is_hex_digit(c),
{
    if 48 <= c as u32 && c as u32 <= 57 {
        (c as u32 - 48) as u8
    } else {
        (c as u32 - 55) as u8
    }
}

/// Reads a percent-encoded string back into bytes: `+` is a space, `%`
/// starts a two-digit escape, a safe character stands for itself, and
/// anything else is not the encoding of any byte string.
pub open spec fn form_decoded_bytes(q: Seq<char>) -> Option<Seq<u8>>
    decreases q.len(),
{
    if q.len() == 0 {
        Some(Seq::empty())
    } else if q.first() == '+' {
        match form_decoded_bytes(q.drop_first()) {
            Some(rest) => Some(seq![32u8] + rest),
            None => None,
        }
    } else if q.first() == '%' {
        if q.len() >= 3 && is_hex_digit(q[1]) && is_hex_digit(q[2]) {
            match form_decoded_bytes(q.subrange(3, q.len() as int)) {
                Some(rest) => Some(
                    seq![(16 * hex_digit_value(q[1]) + hex_digit_value(q[2])) as u8] + rest,
                ),
                None => None,
            }
        } else {
            None
        }
    } else if is_form_safe_char(q.first()) {
        match form_decoded_bytes(q.drop_first()) {
            Some(rest) => Some(seq![q.first() as u8] + rest),
            None => None,
        }
    } else {
        None
    }
}

/// The encoding of a byte string decomposes at the front: the first
/// byte's encoding, then the rest.
proof fn lemma_encoded_bytes_first(bytes: Seq<u8>)
    requires
        bytes.len() > 0,
    ensures
        encoded_bytes(bytes) == encoded_byte(bytes.first()) + encoded_bytes(bytes.drop_first()),
    decreases bytes.len(),
{
    if bytes.len() == 1 {
        assert(bytes.drop_last() =~= Seq::<u8>::empty());
        assert(bytes.drop_first() =~= Seq::<u8>::empty());
        assert(encoded_bytes(bytes) =~= encoded_byte(bytes.first()) + encoded_bytes(
            bytes.drop_first(),
        ));
    } else {
        let shorter = bytes.drop_last();
        lemma_encoded_bytes_first(shorter);
        assert(bytes.drop_first().drop_last() =~= shorter.drop_first());
        assert(bytes.drop_first().last() == bytes.last());
        assert(bytes.drop_first().len() > 0);
        assert(encoded_bytes(bytes.drop_first()) == encoded_bytes(shorter.drop_first())
            + encoded_byte(bytes.last()));
        assert(encoded_byte(bytes.first()) + (encoded_bytes(shorter.drop_first()) + encoded_byte(
            bytes.last(),
        )) =~= (encoded_byte(bytes.first()) + encoded_bytes(shorter.drop_first())) + encoded_byte(
            bytes.last(),
        ));
    }
}

/// An uppercase hexadecimal digit reads back as its own value.
proof fn lemma_hex_digit_round_trip(n: u8)
    requires
        n < 16,
    ensures
        is_hex_digit(hex_upper_digit(n)),
        hex_digit_value(hex_upper_digit(n)) == n,
{
    if n < 10 {
        assert(hex_upper_digit(n) as u32 == 48 + n);
    } else {
        assert(hex_upper_digit(n) as u32 == 55 + n);
    }
}

/// Law: reading the percent-encoding back yields exactly the original
/// bytes — the encoding loses nothing and decodes unambiguously, which
/// is why a form decoder round-trips what this library produces.
pub proof fn lemma_encoded_bytes_round_trip(bytes: Seq<u8>)
    ensures
        form_decoded_bytes(encoded_bytes(bytes)) == Some(bytes),
    decreases bytes.len(),
{
    if bytes.len() > 0 {
        lemma_encoded_bytes_first(bytes);
        lemma_encoded_bytes_round_trip(bytes.drop_first());
        let b = bytes.first();
        let q = encoded_bytes(bytes);
        let rest_q = encoded_bytes(bytes.drop_first());
        if is_form_safe_byte(b) {
            assert(q.first() == b as char);
            assert(q.drop_first() =~= rest_q);
            assert((b as char) as u32 == b);
            assert('+' as u32 == 43 && '%' as u32 == 37);
            assert(q.first() != '+' && q.first() != '%');
            assert(is_form_safe_char(q.first()));
            assert(seq![q.first() as u8] + bytes.drop_first() =~= bytes);
        } else if b == 32 {
            assert(q.first() == '+');
            assert(q.drop_first() =~= rest_q);
            assert(seq![32u8] + bytes.drop_first() =~= bytes);
        } else {
            let h1 = hex_upper_digit(b / 16);
            let h2 = hex_upper_digit(b % 16);
            lemma_hex_digit_round_trip(b / 16);
            lemma_hex_digit_round_trip(b % 16);
            assert(q == seq!['%', h1, h2] + rest_q);
            assert(q.first() == '%');
            assert(q[1] == h1 && q[2] == h2);
            assert(q.len() >= 3);
            assert(q.subrange(3, q.len() as int) =~= rest_q);
            assert(16 * (b / 16) + b % 16 == b) by (nonlinear_arith);
            assert(seq![b] + bytes.drop_first() =~= bytes);
        }
    }
}

/// Law: the encoding of a character string reads back as exactly its
/// UTF-8 bytes, which decode back to the original characters — a full
/// round trip from string to encoded form and back.
pub proof fn lemma_encoded_str_round_trip(s: Seq<char>)
    ensures
        form_decoded_bytes(encoded_str(s)) == Some(encode_utf8(s)),
        vstd::utf8::decode_utf8(encode_utf8(s)) == s,
{
    lemma_encoded_bytes_round_trip(encode_utf8(s));
    vstd::utf8::encode_utf8_decode_utf8(s);
}

/// Law: a percent-encoded key or value never contains the separators `=`
/// or `&`, which is what lets a standard form decoder split the finished
/// string back into the original segments.
pub proof fn lemma_encoded_bytes_separator_free(bytes: Seq<u8>)
    ensures
        forall|i: int|
            0 <= i < encoded_bytes(bytes).len() ==> #[trigger] encoded_bytes(bytes)[i] != '='
                && encoded_bytes(bytes)[i] != '&',
    decreases bytes.len(),
{
    if bytes.len() > 0 {
        lemma_encoded_bytes_separator_free(bytes.drop_last());
        lemma_encoded_byte_separator_free(bytes.last());
        let e = encoded_bytes(bytes);
        let p = encoded_bytes(bytes.drop_last());
        let s = encoded_byte(bytes.last());
        assert(e == p + s);
        assert forall|i: int| 0 <= i < e.len() implies #[trigger] e[i] != '=' && e[i] != '&' by {
            if i < p.len() {
                assert(e[i] == p[i]);
            } else {
                assert(e[i] == s[i - p.len()]);
            }
        }
    }
}

/// A character the encoder can place in a finished query string: a safe
/// byte's own character, `+`, `%`, `=`, or `&`. Everything in this
/// alphabet is in the URL query-safe set, so a URL stores such a string
/// verbatim as its query component.
pub open spec fn is_query_output_char(c: char) -> bool {
    is_form_safe_char(c) || c == '+' || c == '%' || c == '=' || c == '&'
}

/// Whether a whole string stays within the encoder's output alphabet.
pub open spec fn query_output_chars(q: Seq<char>) -> bool {
    forall|i: int| 0 <= i < q.len() ==> is_query_output_char(#[trigger] q[i])
}

/// An uppercase hexadecimal digit is in the output alphabet.
proof fn lemma_hex_digit_output_char(n: u8)
    requires
        n < 16,
    ensures
        is_query_output_char(hex_upper_digit(n)),
{
    let c = hex_upper_digit(n);
    if n < 10 {
        assert(c as u32 == 48 + n);
        assert(c as u8 == 48 + n);
    } else {
        assert(c as u32 == 55 + n);
        assert(c as u8 == 55 + n);
    }
    assert(is_form_safe_char(c));
}

/// The encoding of one byte stays within the output alphabet.
proof fn lemma_encoded_byte_output_chars(b: u8)
    ensures
        forall|i: int|
            0 <= i < encoded_byte(b).len() ==> is_query_output_char(#[trigger] encoded_byte(b)[i]),
{
    if is_form_safe_byte(b) {
        assert(encoded_byte(b)[0] == b as char);
        assert((b as char) as u8 == b);
        assert((b as char) as u32 == b);
        assert(is_form_safe_char(b as char));
    } else if b == 32 {
        assert(encoded_byte(b)[0] == '+');
    } else {
        assert(encoded_byte(b)[0] == '%');
        lemma_hex_digit_output_char(b / 16);
        lemma_hex_digit_output_char(b % 16);
    }
}

/// The encoding of a byte string stays within the output alphabet.
proof fn lemma_encoded_bytes_output_chars(bytes: Seq<u8>)
    ensures
        query_output_chars(encoded_bytes(bytes)),
    decreases bytes.len(),
{
    if bytes.len() > 0 {
        lemma_encoded_bytes_output_chars(bytes.drop_last());
        lemma_encoded_byte_output_chars(bytes.last());
        let e = encoded_bytes(bytes);
        let p = encoded_bytes(bytes.drop_last());
        let s = encoded_byte(bytes.last());
        assert(e == p + s);
        assert forall|i: int| 0 <= i < e.len() implies is_query_output_char(#[trigger] e[i]) by {
            if i < p.len() {
                assert(e[i] == p[i]);
            } else {
                assert(e[i] == s[i - p.len()]);
            }
        }
    }
}

/// The encoding of one entry stays within the output alphabet.
proof fn lemma_entry_encoding_output_chars(e: Entry)
    ensures
        query_output_chars(entry_encoding(e)),
{
    match e {
        Entry::Pair { key, value } => {
            lemma_encoded_bytes_output_chars(encode_utf8(key));
            lemma_encoded_bytes_output_chars(encode_utf8(value));
            let seg = entry_encoding(e);
            let ek = encoded_str(key);
            let ev = encoded_str(value);
            assert(seg == ek + seq!['='] + ev);
            assert forall|i: int| 0 <= i < seg.len() implies is_query_output_char(
                #[trigger] seg[i],
            ) by {
                if i < ek.len() {
                    assert(seg[i] == ek[i]);
                } else if i == ek.len() {
                    assert(seg[i] == '=');
                } else {
                    assert(seg[i] == ev[i - ek.len() - 1]);
                }
            }
        },
        Entry::KeyOnly { key } => {
            lemma_encoded_bytes_output_chars(encode_utf8(key));
        },
    }
}

/// A finished query string stays within the encoder's output alphabet:
/// safe characters, `+`, `%` with its hexadecimal digits, and the
/// separators `=` and `&`.
pub proof fn lemma_query_encoding_output_chars(entries: Seq<Entry>)
    ensures
        query_output_chars(query_encoding(entries)),
    decreases entries.len(),
{
    if entries.len() > 0 {
        lemma_query_encoding_output_chars(entries.drop_last());
        lemma_entry_encoding_output_chars(entries.last());
        let q = query_encoding(entries);
        let p = query_encoding(entries.drop_last());
        let s = entry_encoding(entries.last());
        if p.len() > 0 {
            assert(q == p + seq!['&'] + s);
            assert forall|i: int| 0 <= i < q.len() implies is_query_output_char(
                #[trigger] q[i],
            ) by {
                if i < p.len() {
                    assert(q[i] == p[i]);
                } else if i == p.len() {
                    assert(q[i] == '&');
                } else {
                    assert(q[i] == s[i - p.len() - 1]);
                }
            }
        }
    }
}

/// Whether a string is free of the character `c`.
pub open spec fn free_of(q: Seq<char>, c: char) -> bool {
    forall|i: int| 0 <= i < q.len() ==> q[i] != c
}

/// A string split at every `&`: the list of separated segments. The
/// empty string is one empty segment.
pub open spec fn split_on_amp(q: Seq<char>) -> Seq<Seq<char>>
    decreases q.len(),
{
    if q.len() == 0 {
        seq![Seq::empty()]
    } else if q.last() == '&' {
        split_on_amp(q.drop_last()).push(Seq::empty())
    } else {
        let parts = split_on_amp(q.drop_last());
        parts.update(parts.len() - 1, parts.last().push(q.last()))
    }
}

/// A segment split at its first `=`: the key before it, the value after
/// it; a segment without `=` is no pair.
pub open spec fn split_at_first_eq(seg: Seq<char>) -> Option<(Seq<char>, Seq<char>)>
    decreases seg.len(),
{
    if seg.len() == 0 {
        None
    } else if seg.first() == '=' {
        Some((Seq::empty(), seg.drop_first()))
    } else {
        match split_at_first_eq(seg.drop_first()) {
            Some((key, value)) => Some((seq![seg.first()] + key, value)),
            None => None,
        }
    }
}

/// One segment read back as a decoded key/value pair.
pub open spec fn decoded_segment(seg: Seq<char>) -> Option<(Seq<char>, Seq<char>)> {
    match split_at_first_eq(seg) {
        Some((ek, ev)) => match (form_decoded_bytes(ek), form_decoded_bytes(ev)) {
            (Some(kb), Some(vb)) => Some(
                (vstd::utf8::decode_utf8(kb), vstd::utf8::decode_utf8(vb)),
            ),
            _ => None,
        },
        None => None,
    }
}

/// A list of segments read back as decoded key/value pairs.
pub open spec fn decoded_segments(segs: Seq<Seq<char>>) -> Option<Seq<(Seq<char>, Seq<char>)>>
    decreases segs.len(),
{
    if segs.len() == 0 {
        Some(Seq::empty())
    } else {
        match (decoded_segments(segs.drop_last()), decoded_segment(segs.last())) {
            (Some(pairs), Some(pair)) => Some(pairs.push(pair)),
            _ => None,
        }
    }
}

/// A whole query string read back as decoded key/value pairs, the way a
/// form decoder does: split at `&`, each segment split at its first `=`,
/// both halves percent-decoded.
pub open spec fn form_decoded_pairs(q: Seq<char>) -> Option<Seq<(Seq<char>, Seq<char>)>> {
    if q.len() == 0 {
        Some(Seq::empty())
    } else {
        decoded_segments(split_on_amp(q))
    }
}

/// The keys and values of a sequence of pair entries.
pub open spec fn pair_fields(entries: Seq<Entry>) -> Seq<(Seq<char>, Seq<char>)> {
    entries.map_values(
        |e: Entry|
            match e {
                Entry::Pair { key, value } => (key, value),
                Entry::KeyOnly { key } => (key, Seq::<char>::empty()),
            },
    )
}

/// Splitting never yields an empty list of segments.
proof fn lemma_split_on_amp_len(q: Seq<char>)
    ensures
        split_on_amp(q).len() >= 1,
    decreases q.len(),
{
    if q.len() > 0 {
        lemma_split_on_amp_len(q.drop_last());
    }
}

/// A string without `&` splits into just itself.
proof fn lemma_split_on_amp_single(s: Seq<char>)
    requires
        free_of(s, '&'),
    ensures
        split_on_amp(s) == seq![s],
    decreases s.len(),
{
    if s.len() == 0 {
        assert(s =~= Seq::<char>::empty());
        assert(split_on_amp(s) =~= seq![s]);
    } else {
        assert(free_of(s.drop_last(), '&'));
        lemma_split_on_amp_single(s.drop_last());
        assert(s.last() != '&');
        assert(s.drop_last().push(s.last()) =~= s);
        assert(seq![s.drop_last()].update(0, s) =~= seq![s]);
        assert(split_on_amp(s) =~= seq![s]);
    }
}

/// Appending `&` and an `&`-free segment appends one more segment to the
/// split.
proof fn lemma_split_on_amp_append(x: Seq<char>, s: Seq<char>)
    requires
        free_of(s, '&'),
    ensures
        split_on_amp(x + seq!['&'] + s) == split_on_amp(x).push(s),
    decreases s.len(),
{
    lemma_split_on_amp_len(x);
    if s.len() == 0 {
        let q = x + seq!['&'] + s;
        assert(s =~= Seq::<char>::empty());
        assert(q.drop_last() =~= x);
        assert(q.last() == '&');
        assert(split_on_amp(q) =~= split_on_amp(x).push(s));
    } else {
        assert(free_of(s.drop_last(), '&'));
        lemma_split_on_amp_append(x, s.drop_last());
        let q = x + seq!['&'] + s;
        assert(q.drop_last() =~= x + seq!['&'] + s.drop_last());
        assert(q.last() == s.last());
        assert(q.last() != '&');
        let parts = split_on_amp(x).push(s.drop_last());
        assert(split_on_amp(q) == parts.update(parts.len() - 1, parts.last().push(s.last())));
        assert(parts.last() == s.drop_last());
        assert(s.drop_last().push(s.last()) =~= s);
        assert(parts.update(parts.len() - 1, s) =~= split_on_amp(x).push(s));
    }
}

/// Splitting an `=`-free key, `=`, and a value at the first `=` gives
/// back the two halves.
proof fn lemma_split_at_first_eq_exact(ek: Seq<char>, ev: Seq<char>)
    requires
        free_of(ek, '='),
    ensures
        split_at_first_eq(ek + seq!['='] + ev) == Some((ek, ev)),
    decreases ek.len(),
{
    let seg = ek + seq!['='] + ev;
    if ek.len() == 0 {
        assert(seg.first() == '=');
        assert(seg.drop_first() =~= ev);
        assert(ek =~= Seq::<char>::empty());
    } else {
        assert(free_of(ek.drop_first(), '='));
        lemma_split_at_first_eq_exact(ek.drop_first(), ev);
        assert(seg.first() == ek.first());
        assert(seg.first() != '=');
        assert(seg.drop_first() =~= ek.drop_first() + seq!['='] + ev);
        assert(seq![seg.first()] + ek.drop_first() =~= ek);
    }
}

/// A pair's segment is free of `&`, and its encoded key of `=`.
proof fn lemma_pair_segment_separators(key: Seq<char>, value: Seq<char>)
    ensures
        free_of(entry_encoding(Entry::Pair { key, value }), '&'),
        free_of(encoded_str(key), '='),
{
    lemma_encoded_bytes_separator_free(encode_utf8(key));
    lemma_encoded_bytes_separator_free(encode_utf8(value));
    let seg = entry_encoding(Entry::Pair { key, value });
    let ek = encoded_str(key);
    let ev = encoded_str(value);
    assert(seg == ek + seq!['='] + ev);
    assert forall|i: int| 0 <= i < seg.len() implies seg[i] != '&' by {
        if i < ek.len() {
            assert(seg[i] == ek[i]);
        } else if i == ek.len() {
            assert(seg[i] == '=');
        } else {
            assert(seg[i] == ev[i - ek.len() - 1]);
        }
    }
}

/// One pair's segment decodes back to its key and value.
proof fn lemma_pair_segment_round_trip(key: Seq<char>, value: Seq<char>)
    ensures
        decoded_segment(entry_encoding(Entry::Pair { key, value })) == Some((key, value)),
{
    lemma_pair_segment_separators(key, value);
    lemma_split_at_first_eq_exact(encoded_str(key), encoded_str(value));
    lemma_encoded_str_round_trip(key);
    lemma_encoded_str_round_trip(value);
}

/// Law: decoding the finished query string of any sequence of pairs, as
/// a form decoder reads it, gives back exactly the original keys and
/// values, in order.
pub proof fn lemma_query_round_trip(entries: Seq<Entry>)
    requires
        pairs_only(entries),
    ensures
        form_decoded_pairs(query_encoding(entries)) == Some(pair_fields(entries)),
    decreases entries.len(),
{
    if entries.len() == 0 {
        assert(pair_fields(entries) =~= Seq::<(Seq<char>, Seq<char>)>::empty());
    } else {
        let prev = entries.drop_last();
        let e = entries.last();
        let key = e->Pair_key;
        let value = e->Pair_value;
        assert(e == Entry::Pair { key, value });
        assert(pairs_only(prev));
        lemma_query_round_trip(prev);
        lemma_pair_segment_separators(key, value);
        lemma_pair_segment_round_trip(key, value);
        let seg = entry_encoding(e);
        assert(seg.len() > 0);
        assert(pair_fields(entries) =~= pair_fields(prev).push((key, value)));
        if prev.len() == 0 {
            assert(query_encoding(entries) == seg);
            lemma_split_on_amp_single(seg);
            assert(seq![seg].drop_last() =~= Seq::<Seq<char>>::empty());
            assert(decoded_segments(Seq::<Seq<char>>::empty()) == Some(
                Seq::<(Seq<char>, Seq<char>)>::empty(),
            ));
            assert(seq![seg].last() == seg);
            assert(decoded_segments(seq![seg]) == Some(
                Seq::<(Seq<char>, Seq<char>)>::empty().push((key, value)),
            ));
            assert(Seq::<(Seq<char>, Seq<char>)>::empty().push((key, value)) =~= pair_fields(
                entries,
            ));
        } else {
            lemma_pairs_encoding_nonempty(prev);
            assert(query_encoding(entries) == query_encoding(prev) + seq!['&'] + seg);
            lemma_split_on_amp_append(query_encoding(prev), seg);
            let parts = split_on_amp(query_encoding(prev)).push(seg);
            assert(parts.drop_last() =~= split_on_amp(query_encoding(prev)));
            assert(parts.last() == seg);
            assert(decoded_segments(parts.drop_last()) == Some(pair_fields(prev)));
            assert(decoded_segments(parts) == Some(pair_fields(prev).push((key, value))));
        }
    }
}

/// Appends the encoding of `b` to `out`.
fn push_encoded_byte(out: &mut String, b: u8)
    ensures
        final(out)@ == old(out)@ + encoded_byte(b),
{
    if (48 <= b && b <= 57) || (65 <= b && b <= 90) || (97 <= b && b <= 122) || b == 42 || b == 45
        || b == 46 || b == 95 {
        push_char(out, b as char);
        assert(final(out)@ =~= old(out)@ + encoded_byte(b));
    } else if b == 32 {
        push_char(out, '+');
        assert(final(out)@ =~= old(out)@ + encoded_byte(b));
    } else {
        push_char(out, '%');
        push_char(out, hex_char(b / 16));
        push_char(out, hex_char(b % 16));
        assert(final(out)@ =~= old(out)@ + encoded_byte(b));
    }
}

/// The uppercase hexadecimal digit for `n < 16`, as executable code.
fn hex_char(n: u8) -> (c: char)
    requires
        n < 16,
    ensures
        c == hex_upper_digit(n),
{
    if n < 10 {
        (48 + n) as char
    } else {
        (55 + n) as char
    }
}

/// Appends the percent-encoding of `bytes` to `out`.
pub(crate) fn push_encoded(out: &mut String, bytes: &[u8])
    ensures
        final(out)@ == old(out)@ + encoded_bytes(bytes@),
{
    let mut i: usize = 0;
    while i < bytes.len()
        invariant
            i <= bytes@.len(),
            out@ == old(out)@ + encoded_bytes(bytes@.take(i as int)),
        decreases bytes@.len() - i,
    {
        push_encoded_byte(out, bytes[i]);
        proof {
            assert(bytes@.take(i + 1 as int).drop_last() =~= bytes@.take(i as int));
            assert(bytes@.take(i + 1 as int).last() == bytes@[i as int]);
        }
        i = i + 1;
    }
    proof {
        assert(bytes@.take(bytes@.len() as int) =~= bytes@);
    }
}

/// Relies on `String::push`: appends the given character to the end of
/// the string.
#[verifier::external_body]
pub(crate) fn push_char(out: &mut String, c: char)
    ensures
        final(out)@ == old(out)@.push(c),
{
    out.push(c)
}

} // verus!
