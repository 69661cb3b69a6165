//! Query strings in the `application/x-www-form-urlencoded` syntax: lookup of
//! parameters, their JSON object, and URL form encoding and decoding, all
//! through the `form_urlencoded` crate.
use vstd::prelude::*;
use vstd::utf8::{
    decode_utf8, encode_scalar, encode_utf8, has_width_1_encoding, has_width_2_encoding,
    has_width_3_encoding, last_continuation_byte, leading_byte_width_1, leading_byte_width_2,
    leading_byte_width_3, leading_byte_width_4, second_last_continuation_byte,
    third_last_continuation_byte, valid_utf8,
};
use crate::text::{
    chars_to_string, join_with, lemma_split_around, lemma_split_without_sep, split_on, str_chars,
    trim_start, trim_start_chars,
};
use crate::route::{
    entry_views, keys_unique, last_inserted, law_insertions_last_wins, lookup, upsert_all,
    upsert_entry,
};
use crate::json::{json_object, object_text};

verus! {

// ---------------------------------------------------------------------------
// The byte serializer
// ---------------------------------------------------------------------------

/// Bytes that the form serializer writes as they are.
pub open spec fn form_unchanged(b: u8) -> bool {
    ||| b == 0x2a
    ||| b == 0x2d
    ||| b == 0x2e
    ||| (0x30 <= b && b <= 0x39)
    ||| (0x41 <= b && b <= 0x5a)
    ||| b == 0x5f
    ||| (0x61 <= b && b <= 0x7a)
}

/// The byte of the upper-case hexadecimal digit of `n` (0 to 15).
pub open spec fn hex_upper(n: int) -> u8 {
    seq![
        0x30u8, 0x31u8, 0x32u8, 0x33u8, 0x34u8, 0x35u8, 0x36u8, 0x37u8, 0x38u8, 0x39u8,
        0x41u8, 0x42u8, 0x43u8, 0x44u8, 0x45u8, 0x46u8,
    ][n]
}

/// The encoding of one byte: itself, `+` for a space, or `%XX`.
pub open spec fn form_byte(b: u8) -> Seq<u8> {
    if form_unchanged(b) {
        seq![b]
    } else if b == 0x20 {
        seq![0x2bu8]
    } else {
        seq![0x25u8, hex_upper(b as int / 16), hex_upper(b as int % 16)]
    }
}

/// The form encoding of a byte string, as bytes.
pub open spec fn form_bytes(bs: Seq<u8>) -> Seq<u8>
    decreases bs.len(),
{
    if bs.len() == 0 {
        Seq::empty()
    } else {
        form_byte(bs[0]) + form_bytes(bs.drop_first())
    }
}

/// The form encoding of a byte string, as text (it is ASCII).
pub open spec fn form_serialized(bs: Seq<u8>) -> Seq<char> {
    form_bytes(bs).map_values(|b: u8| b as char)
}

/// `form_urlencoded::byte_serialize` on the UTF-8 bytes of `s`, its pieces
/// concatenated. Its source keeps `*-._`, ASCII digits and letters, writes a
/// space as `+` and any other byte as `%` with two upper-case hex digits.
#[verifier::external_body]
fn form_serialize(s: &str) -> (r: String)
    ensures
        r@ == form_serialized(encode_utf8(s@)),
{
    form_urlencoded::byte_serialize(s.as_bytes()).collect()
}


// ---------------------------------------------------------------------------
// Encoding then decoding gives the bytes back
// ---------------------------------------------------------------------------

/// A byte that the encoder may write: ASCII, and none of `&`, `=`, space.
pub open spec fn form_safe(b: u8) -> bool {
    b < 128 && b != 0x26 && b != 0x3d && b != 0x20
}

proof fn lemma_hex_upper(n: int)
    requires
        0 <= n < 16,
    ensures
        hex_value(hex_upper(n)) == Some(n),
        form_safe(hex_upper(n)),
        hex_upper(n) != 0x2b,
{
    if n < 8 {
        if n < 4 {
            if n == 0 {} else if n == 1 {} else if n == 2 {} else {}
        } else {
            if n == 4 {} else if n == 5 {} else if n == 6 {} else {}
        }
    } else {
        if n < 12 {
            if n == 8 {} else if n == 9 {} else if n == 10 {} else {}
        } else {
            if n == 12 {} else if n == 13 {} else if n == 14 {} else {}
        }
    }
}

proof fn lemma_form_byte(b: u8)
    ensures
        form_byte(b).len() > 0,
        forall|i: int| 0 <= i < form_byte(b).len() ==> form_safe(#[trigger] form_byte(b)[i]),
{
    if !form_unchanged(b) && b != 0x20 {
        lemma_hex_upper(b as int / 16);
        lemma_hex_upper(b as int % 16);
    }
}

proof fn lemma_form_bytes_safe(bs: Seq<u8>)
    ensures
        forall|i: int| 0 <= i < form_bytes(bs).len() ==> form_safe(#[trigger] form_bytes(bs)[i]),
        bs.len() > 0 ==> form_bytes(bs).len() > 0,
    decreases bs.len(),
{
    if bs.len() > 0 {
        lemma_form_byte(bs[0]);
        lemma_form_bytes_safe(bs.drop_first());
        let head = form_byte(bs[0]);
        let tail = form_bytes(bs.drop_first());
        assert forall|i: int| 0 <= i < form_bytes(bs).len() implies form_safe(
            #[trigger] form_bytes(bs)[i],
        ) by {
            if i < head.len() {
                assert(form_bytes(bs)[i] == head[i]);
            } else {
                assert(form_bytes(bs)[i] == tail[i - head.len()]);
            }
        }
    }
}

proof fn lemma_plus_as_space_concat(x: Seq<u8>, y: Seq<u8>)
    ensures
        plus_as_space(x + y) == plus_as_space(x) + plus_as_space(y),
{
    assert(plus_as_space(x + y) =~= plus_as_space(x) + plus_as_space(y));
}

proof fn lemma_decode_form_bytes(bs: Seq<u8>)
    ensures
        form_component(form_bytes(bs)) == bs,
    decreases bs.len(),
{
    if bs.len() == 0 {
        assert(plus_as_space(Seq::<u8>::empty()) =~= Seq::<u8>::empty());
    } else {
        let b: u8 = bs[0];
        let rest = bs.drop_first();
        lemma_decode_form_bytes(rest);
        let head = form_byte(b);
        let tail = plus_as_space(form_bytes(rest));
        lemma_plus_as_space_concat(head, form_bytes(rest));
        let all = plus_as_space(head) + tail;
        if form_unchanged(b) || b == 0x20 {
            assert(plus_as_space(head) =~= seq![b]);
            assert(all[0] == b);
            assert(all.drop_first() =~= tail);
        } else {
            lemma_hex_upper(b as int / 16);
            lemma_hex_upper(b as int % 16);
            assert(plus_as_space(head) =~= head);
            assert(all[0] == 0x25u8 && all[1] == hex_upper(b as int / 16) && all[2] == hex_upper(
                b as int % 16,
            ));
            assert(all.skip(3) =~= tail);
            assert(((b as int / 16) * 16 + b as int % 16) as u8 == b);
        }
        assert(seq![b] + rest =~= bs);
    }
}

/// The text written by the encoder, as the parser reads it: its UTF-8 bytes
/// are the encoded bytes.
proof fn lemma_form_serialized_bytes(bs: Seq<u8>)
    ensures
        encode_utf8(form_serialized(bs)) == form_bytes(bs),
{
    let fb = form_bytes(bs);
    let fs = form_serialized(bs);
    lemma_form_bytes_safe(bs);
    assert(vstd::utf8::is_ascii_chars(fs)) by {
        assert forall|i: int| 0 <= i < fs.len() implies '\0' <= #[trigger] fs[i] <= '\u{7f}' by {
            assert(form_safe(fb[i]));
            assert(fs[i] == fb[i] as char);
        }
    }
    vstd::utf8::is_ascii_chars_encode_utf8(fs);
    assert forall|i: int| 0 <= i < fb.len() implies encode_utf8(fs)[i] == fb[i] by {
        assert(form_safe(fb[i]));
        assert(fs[i] == fb[i] as char);
        assert(fs[i] as u8 == encode_utf8(fs)[i]);
    }
    assert(encode_utf8(fs) =~= fb);
}

// ---------------------------------------------------------------------------
// The parser
// ---------------------------------------------------------------------------

/// The value of a hex digit byte, as `char::to_digit(16)` reads it.
pub open spec fn hex_value(b: u8) -> Option<int> {
    if 0x30 <= b && b <= 0x39 {
        Some(b - 0x30)
    } else if 0x41 <= b && b <= 0x46 {
        Some(b - 0x41 + 10)
    } else if 0x61 <= b && b <= 0x66 {
        Some(b - 0x61 + 10)
    } else {
        None
    }
}

/// Every `+` replaced by a space.
pub open spec fn plus_as_space(bs: Seq<u8>) -> Seq<u8> {
    bs.map_values(|b: u8| if b == 0x2b { 0x20u8 } else { b })
}

/// Percent-decoding: `%` and two hex digits give the byte they spell; any
/// other byte, a lone `%` included, stands for itself.
pub open spec fn percent_decoded(bs: Seq<u8>) -> Seq<u8>
    decreases bs.len(),
{
    if bs.len() == 0 {
        Seq::empty()
    } else if bs[0] == 0x25 && bs.len() >= 3 && hex_value(bs[1]) is Some && hex_value(
        bs[2],
    ) is Some {
        seq![(hex_value(bs[1]).unwrap() * 16 + hex_value(bs[2]).unwrap()) as u8] + percent_decoded(
            bs.skip(3),
        )
    } else {
        seq![bs[0]] + percent_decoded(bs.drop_first())
    }
}

/// The decoded bytes of a name or value.
pub open spec fn form_component(bs: Seq<u8>) -> Seq<u8> {
    percent_decoded(plus_as_space(bs))
}

/// The non-empty `&`-separated pieces of a byte string.
pub open spec fn form_segments(bs: Seq<u8>) -> Seq<Seq<u8>> {
    split_on(bs, 0x26u8).filter(|seg: Seq<u8>| seg.len() > 0)
}

/// A piece split at its first `eq`: what is before it, and what is after it
/// (empty where there is none).
pub open spec fn raw_pair<A>(seg: Seq<A>, eq: A) -> (Seq<A>, Seq<A>) {
    let parts = split_on(seg, eq);
    (parts[0], join_with(parts.drop_first(), eq))
}

/// The (name, value) pairs that `form_urlencoded::parse` yields for the UTF-8
/// bytes of a string.
pub uninterp spec fn form_pairs(s: Seq<char>) -> Seq<(Seq<char>, Seq<char>)>;

/// The views of a list of string pairs.
pub open spec fn pair_views(v: Seq<(String, String)>) -> Seq<(Seq<char>, Seq<char>)> {
    v.map_values(|p: (String, String)| (p.0@, p.1@))
}

/// The text of a raw name or value: its bytes with `+` read as a space and
/// percent-decoded, read as UTF-8 where they are valid; `lossy` (what the
/// parser's lossy decoding gives) where they are not.
pub open spec fn decoded_part(raw: Seq<u8>, lossy: Seq<char>) -> Seq<char> {
    if valid_utf8(form_component(raw)) {
        decode_utf8(form_component(raw))
    } else {
        lossy
    }
}

/// The (name, value) pairs of a string in the form syntax: one pair for each
/// non-empty `&`-separated piece of its UTF-8 bytes, split at the first `=`,
/// each part decoded by `decoded_part`; only the text of parts that do not
/// decode to valid UTF-8 is left to the name `form_pairs`.
pub open spec fn parsed_pairs(s: Seq<char>) -> Seq<(Seq<char>, Seq<char>)> {
    let segs = form_segments(encode_utf8(s));
    Seq::new(
        segs.len(),
        |i: int|
            (
                decoded_part(raw_pair(segs[i], 0x3du8).0, form_pairs(s)[i].0),
                decoded_part(raw_pair(segs[i], 0x3du8).1, form_pairs(s)[i].1),
            ),
    )
}

/// `form_urlencoded::parse` on the UTF-8 bytes of `s`, pairs collected as
/// owned strings. Its source splits at `&`, skips empty pieces, splits each
/// piece at its first `=`, replaces `+` by a space, percent-decodes, and
/// decodes UTF-8 lossily (valid UTF-8 is kept as it is); the text that the
/// lossy step makes of bytes that are not valid UTF-8 is left to the name
/// `form_pairs`.
#[verifier::external_body]
fn form_parse(s: &str) -> (r: Vec<(String, String)>)
    ensures
        pair_views(r@) == form_pairs(s@),
        pair_views(r@) == parsed_pairs(s@),
{
    form_urlencoded::parse(s.as_bytes()).into_owned().collect()
}

/// A parameter name made only of bytes that encoding leaves as they are
/// (ASCII letters, digits and `*-._`).
pub open spec fn plain_name(k: Seq<char>) -> bool {
    k.len() > 0 && forall|i: int| 0 <= i < k.len() ==> '\0' <= #[trigger] k[i] <= '\u{7f}' && form_unchanged(k[i] as u8)
}

proof fn lemma_percent_decoded_plain(bs: Seq<u8>)
    requires
        forall|i: int| 0 <= i < bs.len() ==> bs[i] != 0x25u8 && bs[i] != 0x2bu8,
    ensures
        form_component(bs) == bs,
    decreases bs.len(),
{
    assert(plus_as_space(bs) =~= bs);
    if bs.len() > 0 {
        lemma_percent_decoded_plain(bs.drop_first());
        assert(plus_as_space(bs.drop_first()) =~= bs.drop_first());
        assert(seq![bs[0]] + bs.drop_first() =~= bs);
    }
}

/// The text `key=` followed by the encoding of `v`, for a plain `key`.
pub open spec fn encoded_pair(key: Seq<char>, v: Seq<char>) -> Seq<char> {
    key + seq!['='] + form_serialized(encode_utf8(v))
}

/// The bytes of `key=` and the encoding of `v`, for a plain `key`: ASCII,
/// free of `&`, and read back by the parser as the pair `(key, v)`.
proof fn lemma_plain_pair(key: Seq<char>, v: Seq<char>)
    requires
        plain_name(key),
    ensures
        ({
            let q = encoded_pair(key, v);
            let qb = encode_utf8(q);
            &&& vstd::utf8::is_ascii_chars(q)
            &&& q[0] == key[0]
            &&& qb.len() == q.len() > 0
            &&& forall|i: int| 0 <= i < qb.len() ==> #[trigger] qb[i] != 0x26u8
            &&& valid_utf8(form_component(raw_pair(qb, 0x3du8).0))
            &&& decode_utf8(form_component(raw_pair(qb, 0x3du8).0)) == key
            &&& valid_utf8(form_component(raw_pair(qb, 0x3du8).1))
            &&& decode_utf8(form_component(raw_pair(qb, 0x3du8).1)) == v
        }),
{
    let b = encode_utf8(v);
    let fb = form_bytes(b);
    let e = form_serialized(b);
    let q = encoded_pair(key, v);
    lemma_form_bytes_safe(b);
    lemma_form_serialized_bytes(b);
    let kb = key.map_values(|c: char| c as u8);
    assert(q[0] == key[0]);
    assert(q.len() > 0);
    // The whole text is ASCII, so its bytes are its characters.
    assert(vstd::utf8::is_ascii_chars(q)) by {
        assert forall|i: int| 0 <= i < q.len() implies '\0' <= #[trigger] q[i] <= '\u{7f}' by {
            if i < key.len() {
                assert(q[i] == key[i]);
            } else if i == key.len() {
            } else {
                assert(q[i] == e[i - key.len() - 1]);
                assert(form_safe(fb[i - key.len() - 1]));
            }
        }
    }
    assert(vstd::utf8::is_ascii_chars(key)) by {
        assert forall|i: int| 0 <= i < key.len() implies '\0' <= #[trigger] key[i] <= '\u{7f}' by {
        }
    }
    vstd::utf8::is_ascii_chars_encode_utf8(q);
    vstd::utf8::is_ascii_chars_encode_utf8(key);
    let qb = encode_utf8(q);
    assert(encode_utf8(key) =~= kb);
    assert(qb =~= kb + seq![0x3du8] + fb) by {
        assert forall|i: int| 0 <= i < qb.len() implies qb[i] == (kb + seq![0x3du8] + fb)[i] by {
            assert(q[i] as u8 == qb[i]);
            if i < key.len() {
                assert(q[i] == key[i]);
            } else if i == key.len() {
            } else {
                assert(q[i] == e[i - key.len() - 1]);
                assert(form_safe(fb[i - key.len() - 1]));
            }
        }
    }
    // No `&` anywhere, and `=` only after the key.
    assert forall|i: int| 0 <= i < qb.len() implies #[trigger] qb[i] != 0x26u8 by {
        if i < key.len() {
            assert(key[i] <= '\u{7f}' && form_unchanged(key[i] as u8));
        } else if i > key.len() {
            assert(form_safe(fb[i - key.len() - 1]));
        }
    }
    assert forall|i: int| 0 <= i < kb.len() implies kb[i] != 0x3du8 && kb[i] != 0x25u8
        && kb[i] != 0x2bu8 by {
        assert(key[i] <= '\u{7f}' && form_unchanged(key[i] as u8));
    }
    assert forall|i: int| 0 <= i < fb.len() implies fb[i] != 0x3du8 by {
        assert(form_safe(fb[i]));
    }
    lemma_split_around(kb, 0x3du8, fb);
    lemma_split_without_sep(kb, 0x3du8);
    lemma_split_without_sep(fb, 0x3du8);
    assert(split_on(qb, 0x3du8) =~= seq![kb, fb]);
    assert(seq![kb, fb].drop_first() =~= seq![fb]);
    assert(raw_pair(qb, 0x3du8) == (kb, fb));
    lemma_percent_decoded_plain(kb);
    lemma_decode_form_bytes(b);
    vstd::utf8::encode_utf8_valid_utf8(key);
    vstd::utf8::encode_utf8_decode_utf8(key);
    vstd::utf8::encode_utf8_valid_utf8(v);
    vstd::utf8::encode_utf8_decode_utf8(v);
}

/// What the parser reads from `key=` followed by the encoding of `v`, for a
/// plain `key`.
proof fn lemma_encoded_query(key: Seq<char>, v: Seq<char>)
    requires
        plain_name(key),
    ensures
        ({
            let q = encoded_pair(key, v);
            let segs = form_segments(encode_utf8(q));
            &&& trim_start(q, '?') == q
            &&& segs.len() == 1
            &&& valid_utf8(form_component(raw_pair(segs[0], 0x3du8).0))
            &&& decode_utf8(form_component(raw_pair(segs[0], 0x3du8).0)) == key
            &&& valid_utf8(form_component(raw_pair(segs[0], 0x3du8).1))
            &&& decode_utf8(form_component(raw_pair(segs[0], 0x3du8).1)) == v
        }),
{
    reveal_with_fuel(Seq::<Seq<u8>>::filter, 2);
    lemma_plain_pair(key, v);
    let q = encoded_pair(key, v);
    let qb = encode_utf8(q);
    assert(key[0] <= '\u{7f}' && form_unchanged(key[0] as u8));
    lemma_split_without_sep(qb, 0x26u8);
    assert(seq![qb].drop_last() =~= Seq::<Seq<u8>>::empty());
    assert(Seq::<Seq<u8>>::empty().filter(|seg: Seq<u8>| seg.len() > 0) =~= Seq::<Seq<u8>>::empty());
    assert(seq![qb].filter(|seg: Seq<u8>| seg.len() > 0) =~= seq![qb]);
    assert(form_segments(qb) =~= seq![qb]);
}

/// What the parser reads from two such pairs joined by `&`.
proof fn lemma_encoded_two_pairs(a: Seq<char>, x: Seq<char>, key: Seq<char>, v: Seq<char>)
    requires
        plain_name(a),
        plain_name(key),
    ensures
        ({
            let q = encoded_pair(a, x) + seq!['&'] + encoded_pair(key, v);
            &&& trim_start(q, '?') == q
            &&& parsed_pairs(q) == seq![(a, x), (key, v)]
        }),
{
    reveal_with_fuel(Seq::<Seq<u8>>::filter, 3);
    lemma_plain_pair(a, x);
    lemma_plain_pair(key, v);
    let p1 = encoded_pair(a, x);
    let p2 = encoded_pair(key, v);
    let q = p1 + seq!['&'] + p2;
    let b1 = encode_utf8(p1);
    let b2 = encode_utf8(p2);
    assert(q[0] == p1[0]);
    assert(a[0] <= '\u{7f}' && form_unchanged(a[0] as u8));
    assert(vstd::utf8::is_ascii_chars(q)) by {
        assert forall|i: int| 0 <= i < q.len() implies '\0' <= #[trigger] q[i] <= '\u{7f}' by {
            if i < p1.len() {
                assert(q[i] == p1[i]);
            } else if i > p1.len() {
                assert(q[i] == p2[i - p1.len() - 1]);
            }
        }
    }
    vstd::utf8::is_ascii_chars_encode_utf8(q);
    vstd::utf8::is_ascii_chars_encode_utf8(p1);
    vstd::utf8::is_ascii_chars_encode_utf8(p2);
    let qb = encode_utf8(q);
    assert(qb =~= b1 + seq![0x26u8] + b2) by {
        assert forall|i: int| 0 <= i < qb.len() implies qb[i] == (b1 + seq![0x26u8] + b2)[i] by {
            assert(q[i] as u8 == qb[i]);
            if i < p1.len() {
                assert(q[i] == p1[i]);
                assert(p1[i] as u8 == b1[i]);
            } else if i == p1.len() {
            } else {
                assert(q[i] == p2[i - p1.len() - 1]);
                assert(p2[i - p1.len() - 1] as u8 == b2[i - p1.len() - 1]);
            }
        }
    }
    lemma_split_around(b1, 0x26u8, b2);
    lemma_split_without_sep(b1, 0x26u8);
    lemma_split_without_sep(b2, 0x26u8);
    let parts = seq![b1, b2];
    assert(split_on(qb, 0x26u8) =~= parts);
    assert(parts.drop_last() =~= seq![b1]);
    assert(seq![b1].drop_last() =~= Seq::<Seq<u8>>::empty());
    assert(Seq::<Seq<u8>>::empty().filter(|seg: Seq<u8>| seg.len() > 0) =~= Seq::<Seq<u8>>::empty());
    assert(seq![b1].filter(|seg: Seq<u8>| seg.len() > 0) =~= seq![b1]);
    assert(parts.filter(|seg: Seq<u8>| seg.len() > 0) =~= parts);
    let segs = form_segments(qb);
    assert(segs =~= parts);
    assert(parsed_pairs(q) =~= seq![(a, x), (key, v)]);
}

// ---------------------------------------------------------------------------
// Query parameters
// ---------------------------------------------------------------------------

/// The value of the first pair named `key`, or the empty string.
pub open spec fn first_value(pairs: Seq<(Seq<char>, Seq<char>)>, key: Seq<char>) -> Seq<char>
    decreases pairs.len(),
{
    if pairs.len() == 0 {
        Seq::empty()
    } else if pairs[0].0 == key {
        pairs[0].1
    } else {
        first_value(pairs.drop_first(), key)
    }
}

/// A lookup gives the value of the first pair whose name is exactly the key,
/// whatever the names before it begin with.
pub proof fn law_first_value_is_first_match(pairs: Seq<(Seq<char>, Seq<char>)>, key: Seq<char>, i: int)
    requires
        0 <= i < pairs.len(),
        pairs[i].0 == key,
        forall|j: int| 0 <= j < i ==> #[trigger] pairs[j].0 != key,
    ensures
        first_value(pairs, key) == pairs[i].1,
    decreases i,
{
    if i > 0 {
        let rest = pairs.drop_first();
        assert(pairs[0].0 != key);
        assert forall|j: int| 0 <= j < i - 1 implies #[trigger] rest[j].0 != key by {
            assert(rest[j] == pairs[j + 1]);
        }
        law_first_value_is_first_match(rest, key, i - 1);
    }
}

/// A lookup of a key that no pair has as its name gives the empty string.
pub proof fn law_first_value_absent(pairs: Seq<(Seq<char>, Seq<char>)>, key: Seq<char>)
    requires
        forall|j: int| 0 <= j < pairs.len() ==> #[trigger] pairs[j].0 != key,
    ensures
        first_value(pairs, key).len() == 0,
    decreases pairs.len(),
{
    if pairs.len() > 0 {
        let rest = pairs.drop_first();
        assert(pairs[0].0 != key);
        assert forall|j: int| 0 <= j < rest.len() implies #[trigger] rest[j].0 != key by {
            assert(rest[j] == pairs[j + 1]);
        }
        law_first_value_absent(rest, key);
    }
}

/// The pairs of a query string, leading `?`s ignored.
pub open spec fn query_pairs(query: Seq<char>) -> Seq<(Seq<char>, Seq<char>)> {
    parsed_pairs(trim_start(query, '?'))
}

/// The value of `key` in a query string (the empty string when absent).
pub open spec fn query_value(query: Seq<char>, key: Seq<char>) -> Seq<char> {
    first_value(query_pairs(query), key)
}

/// In a query `a=x&key=v` with two different plain names, the lookup of
/// `key` gives `v`: a name before it that is not exactly the key is passed
/// over, whatever it begins with.
pub proof fn law_query_value_skips_other_names(a: Seq<char>, x: Seq<char>, key: Seq<char>, v: Seq<char>)
    requires
        plain_name(a),
        plain_name(key),
        a != key,
    ensures
        query_value(encoded_pair(a, x) + seq!['&'] + encoded_pair(key, v), key) == v,
{
    lemma_encoded_two_pairs(a, x, key, v);
    let q = encoded_pair(a, x) + seq!['&'] + encoded_pair(key, v);
    let pairs = seq![(a, x), (key, v)];
    assert(query_pairs(q) == pairs);
    assert(pairs[0].0 != key);
    assert(pairs.drop_first() =~= seq![(key, v)]);
    assert(first_value(seq![(key, v)], key) == v);
    assert(first_value(pairs, key) == first_value(pairs.drop_first(), key));
}

/// The value of the first pair named `key` in parsed pairs, or the empty string.
pub fn first_value_of(pairs: &Vec<(String, String)>, key: &String) -> (r: String)
    ensures
        r@ == first_value(pair_views(pairs@), key@),
{
    let ghost pv = pair_views(pairs@);
    let mut i: usize = 0;
    assert(pv.skip(0) =~= pv);
    while i < pairs.len()
        invariant
            pv == pair_views(pairs@),
            i <= pairs.len(),
            first_value(pv, key@) == first_value(pv.skip(i as int), key@),
        decreases pairs.len() - i,
    {
        let ghost rest = pv.skip(i as int);
        assert(rest[0] == (pairs@[i as int].0@, pairs@[i as int].1@));
        assert(rest.drop_first() =~= pv.skip(i + 1));
        if pairs[i].0 == *key {
            return pairs[i].1.clone();
        }
        i = i + 1;
    }
    String::new()
}

/// Extracts a specific parameter from a URL query string by key. A value
/// written with `url_encode` after `key=`, for a plain key, reads back as it
/// was.
pub fn get_query_param(query: String, key: String) -> (r: String)
    ensures
        r@ == query_value(query@, key@),
        forall|v: Seq<char>|
            plain_name(key@) && query@ == key@ + seq!['='] + #[trigger] form_serialized(
                encode_utf8(v),
            ) ==> r@ == v,
{
    let pairs = parse_query(&query);
    let r = first_value_of(&pairs, &key);
    proof {
        assert forall|v: Seq<char>|
            plain_name(key@) && query@ == key@ + seq!['='] + #[trigger] form_serialized(
                encode_utf8(v),
            ) implies r@ == v by {
            lemma_encoded_query(key@, v);
            let pv = pair_views(pairs@);
            assert(pv[0] == (key@, v));
        }
    }
    r
}

/// Whether some pair is named `key`.
pub open spec fn has_key(pairs: Seq<(Seq<char>, Seq<char>)>, key: Seq<char>) -> bool {
    exists|i: int| 0 <= i < pairs.len() && #[trigger] pairs[i].0 == key
}

/// Whether a query string holds a parameter named `key`, whatever its value.
pub open spec fn query_has(query: Seq<char>, key: Seq<char>) -> bool {
    has_key(query_pairs(query), key)
}

/// Whether some parsed pair is named `key`.
pub fn has_key_of(pairs: &Vec<(String, String)>, key: &String) -> (r: bool)
    ensures
        r == has_key(pair_views(pairs@), key@),
{
    let ghost pv = pair_views(pairs@);
    let mut i: usize = 0;
    while i < pairs.len()
        invariant
            pv == pair_views(pairs@),
            i <= pairs.len(),
            forall|j: int| 0 <= j < i ==> #[trigger] pv[j].0 != key@,
        decreases pairs.len() - i,
    {
        assert(pv[i as int] == (pairs@[i as int].0@, pairs@[i as int].1@));
        if pairs[i].0 == *key {
            assert(pv[i as int].0 == key@);
            return true;
        }
        i = i + 1;
    }
    false
}

/// The pairs of a query string, leading `?`s ignored.
pub(crate) fn parse_query(query: &String) -> (r: Vec<(String, String)>)
    ensures
        pair_views(r@) == query_pairs(query@),
{
    let q = trim_start_chars(&str_chars(query.as_str()), '?');
    let qs = chars_to_string(&q);
    form_parse(qs.as_str())
}

/// The entries of a query string: each name once, in order of first
/// appearance, with the value of its last occurrence.
pub open spec fn query_entries(query: Seq<char>) -> Seq<(Seq<char>, Seq<char>)> {
    upsert_all(Seq::empty(), query_pairs(query))
}

/// In the JSON object of a query string each name occurs once, bound to the
/// value of its last occurrence in the query.
pub proof fn law_query_entries_last_wins(query: Seq<char>, k: Seq<char>)
    ensures
        keys_unique(query_entries(query)),
        lookup(query_entries(query), k) == last_inserted(query_pairs(query), k),
{
    law_insertions_last_wins(query_pairs(query), k);
}

/// The JSON object of parsed pairs: each name once, in order of first
/// appearance, with the value of its last occurrence.
pub fn pairs_json(pairs: &Vec<(String, String)>) -> (r: String)
    ensures
        r@ == json_object(upsert_all(Seq::empty(), pair_views(pairs@))),
{
    let ghost pv = pair_views(pairs@);
    let mut entries: Vec<(Vec<char>, Vec<char>)> = Vec::new();
    assert(entry_views(entries@) =~= Seq::<(Seq<char>, Seq<char>)>::empty());
    assert(pv.skip(0) =~= pv);
    let mut i: usize = 0;
    while i < pairs.len()
        invariant
            pv == pair_views(pairs@),
            i <= pairs.len(),
            upsert_all(Seq::empty(), pv) == upsert_all(entry_views(entries@), pv.skip(i as int)),
        decreases pairs.len() - i,
    {
        let ghost rest = pv.skip(i as int);
        assert(rest[0] == (pairs@[i as int].0@, pairs@[i as int].1@));
        assert(rest.drop_first() =~= pv.skip(i + 1));
        let k = str_chars(pairs[i].0.as_str());
        let v = str_chars(pairs[i].1.as_str());
        upsert_entry(&mut entries, k, v);
        i = i + 1;
    }
    assert(pv.skip(i as int) =~= Seq::<(Seq<char>, Seq<char>)>::empty());
    object_text(&entries)
}

/// Parses a query string into a JSON object string (e.g. `{"key":"value"}`).
pub fn parse_query_json(query: String) -> (r: String)
    ensures
        r@ == json_object(query_entries(query@)),
{
    let pairs = parse_query(&query);
    pairs_json(&pairs)
}

/// Encodes a plain string into application/x-www-form-urlencoded percent format.
pub fn url_encode(input: String) -> (r: String)
    ensures
        r@ == form_serialized(encode_utf8(input@)),
{
    form_serialize(input.as_str())
}

/// The text that `percent_encoding` decodes from a byte string: the bytes
/// percent-decoded, then read as UTF-8 with invalid sequences replaced.
pub uninterp spec fn percent_decoded_text(bs: Seq<u8>) -> Seq<char>;

/// `percent_encoding::percent_decode` followed by `decode_utf8_lossy`. Its
/// source decodes `%` and two hex digits to the byte they spell and keeps any
/// other byte (`percent_decoded`), then hands valid UTF-8 back as it is; what
/// replaces invalid sequences is left to the name `percent_decoded_text`.
#[verifier::external_body]
fn percent_decode_text(bs: &[u8]) -> (r: String)
    ensures
        r@ == percent_decoded_text(bs@),
        valid_utf8(percent_decoded(bs@)) ==> r@ == decode_utf8(percent_decoded(bs@)),
{
    percent_encoding::percent_decode(bs).decode_utf8_lossy().into_owned()
}

/// The bytes with every `+` replaced by a space.
fn plus_to_space(bs: &[u8]) -> (r: Vec<u8>)
    ensures
        r@ == plus_as_space(bs@),
{
    let mut out: Vec<u8> = Vec::new();
    let mut i: usize = 0;
    while i < bs.len()
        invariant
            i <= bs.len(),
            out@ == plus_as_space(bs@.take(i as int)),
        decreases bs.len() - i,
    {
        let b: u8 = bs[i];
        if b == 0x2b {
            out.push(0x20);
        } else {
            out.push(b);
        }
        i = i + 1;
        assert(plus_as_space(bs@.take(i as int)) =~= plus_as_space(bs@.take(i - 1)).push(
            if b == 0x2b { 0x20u8 } else { b },
        ));
    }
    assert(bs@.take(bs.len() as int) =~= bs@);
    out
}

/// What `url_decode` gives: the whole input, `+` read as a space, then
/// percent-decoded and read as UTF-8; where those bytes are not valid UTF-8,
/// what the lossy decoding makes of them.
pub open spec fn url_decoded(input: Seq<char>) -> Seq<char> {
    let d = percent_decoded(plus_as_space(encode_utf8(input)));
    if valid_utf8(d) {
        decode_utf8(d)
    } else {
        percent_decoded_text(plus_as_space(encode_utf8(input)))
    }
}

proof fn lemma_scalar_bytes_plain(c: char)
    requires
        c != '%',
        c != '+',
    ensures
        forall|j: int|
            0 <= j < encode_scalar(c as u32).len() ==> #[trigger] encode_scalar(c as u32)[j] != 0x25u8
                && encode_scalar(c as u32)[j] != 0x2bu8,
{
    let v = c as u32;
    vstd::utf8::char_is_scalar(c);
    if has_width_1_encoding(v) {
        assert(leading_byte_width_1(v) as u32 == v) by (bit_vector)
            requires
                v <= 0x7f,
        ;
        assert(v != 0x25 && v != 0x2b);
    } else if has_width_2_encoding(v) {
        assert(leading_byte_width_2(v) >= 0x80 && last_continuation_byte(v) >= 0x80) by (bit_vector);
    } else if has_width_3_encoding(v) {
        assert(leading_byte_width_3(v) >= 0x80 && second_last_continuation_byte(v) >= 0x80
            && last_continuation_byte(v) >= 0x80) by (bit_vector);
    } else {
        assert(leading_byte_width_4(v) >= 0x80 && third_last_continuation_byte(v) >= 0x80
            && second_last_continuation_byte(v) >= 0x80 && last_continuation_byte(v) >= 0x80)
            by (bit_vector);
    }
}

proof fn lemma_encode_plain(chars: Seq<char>)
    requires
        forall|i: int| 0 <= i < chars.len() ==> #[trigger] chars[i] != '%' && chars[i] != '+',
    ensures
        forall|j: int|
            0 <= j < encode_utf8(chars).len() ==> #[trigger] encode_utf8(chars)[j] != 0x25u8
                && encode_utf8(chars)[j] != 0x2bu8,
    decreases chars.len(),
{
    if chars.len() > 0 {
        let rest = chars.drop_first();
        assert forall|i: int| 0 <= i < rest.len() implies #[trigger] rest[i] != '%' && rest[i] != '+' by {
            assert(rest[i] == chars[i + 1]);
        }
        lemma_encode_plain(rest);
        assert(chars[0] != '%' && chars[0] != '+');
        lemma_scalar_bytes_plain(chars[0]);
        let head = encode_scalar(chars[0] as u32);
        let all = encode_utf8(chars);
        assert(all == head + encode_utf8(rest));
        assert forall|j: int| 0 <= j < all.len() implies #[trigger] all[j] != 0x25u8 && all[j]
            != 0x2bu8 by {
            if j < head.len() {
                assert(all[j] == head[j]);
            } else {
                assert(all[j] == encode_utf8(rest)[j - head.len()]);
            }
        }
    }
}

/// Decodes a percent-encoded string back into raw UTF-8. Text that
/// `url_encode` wrote for a string decodes to that string, and text with no
/// `%` and no `+` decodes to itself.
pub fn url_decode(input: String) -> (r: String)
    ensures
        r@ == url_decoded(input@),
        forall|t: Seq<char>| #[trigger] form_serialized(encode_utf8(t)) == input@ ==> r@ == t,
        (forall|i: int| 0 <= i < input@.len() ==> #[trigger] input@[i] != '%' && input@[i] != '+')
            ==> r@ == input@,
{
    let bytes = input.as_str().as_bytes();
    let replaced = plus_to_space(bytes);
    let r = percent_decode_text(replaced.as_slice());
    proof {
        if forall|i: int| 0 <= i < input@.len() ==> #[trigger] input@[i] != '%' && input@[i] != '+' {
            lemma_encode_plain(input@);
            lemma_percent_decoded_plain(encode_utf8(input@));
            vstd::utf8::encode_utf8_valid_utf8(input@);
            vstd::utf8::encode_utf8_decode_utf8(input@);
        }
        assert forall|t: Seq<char>| #[trigger] form_serialized(encode_utf8(t)) == input@ implies r@
            == t by {
            let b = encode_utf8(t);
            lemma_form_serialized_bytes(b);
            lemma_decode_form_bytes(b);
            vstd::utf8::encode_utf8_valid_utf8(t);
            vstd::utf8::encode_utf8_decode_utf8(t);
        }
    }
    r
}

} // verus!
