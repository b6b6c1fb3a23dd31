//! Unified container codec: framing, diffusion and text encoding composed.
//!
//! Encoding frames a typed payload with the prefix padding block, diffuses
//! the framed bytes with the reversible permutation, and renders the result
//! as a checksum-protected text string. Decoding runs the same three stages
//! backwards and reports exactly which stage rejected a malformed input.

use crate::bech32::{
    bytes_of_symbols, char_sym, checksum_syms, lemma_checksum_syms_lt32, lemma_checksum_valid,
    lemma_charset, lemma_symbols_lt32, lemma_symbols_round_trip, polymod, sym_char, sym_count,
    symbols_of, hrp_expand, MAX_ENCODED,
};
use crate::frame::{
    frame, frame_spec, has_dup, has_oversize, insert_item, item_bytes, items_bytes,
    lemma_parse_items_of_encoding, pad_hrp, parse_items, sort_items, unframe, unframe_spec,
    views_of, MAX_PAYLOAD, PAD_WIDTH,
};
use crate::jumble::{invert, inverted, lemma_permute_invert_round_trip, permute, permuted, MAX_BUF,
    MIN_BUF};
use crate::text::{
    decode_text, decode_text_spec, encode_text, encode_text_spec, encoded_text, has_upper, hrp_ok,
    is_upper, lemma_rfind_at, lowercased, rfind_sep, to_lower, SEPARATOR,
};
use crate::varint::{lemma_varint_bytes_len, varint_len};
use vstd::prelude::*;
use vstd::string::StrSliceExecFns;
use vstd::string::StringSliceAdditionalSpecFns;

verus! {

/// Everything that can go wrong while encoding or decoding a container.
///
/// The first group are caller-input errors caught before any transformation;
/// the second are malformed-input errors found while decoding; `Internal`
/// marks a broken invariant of the codec itself, never bad input.
#[derive(Clone, Copy, Debug, PartialEq, Eq, Structural)]
pub enum CodecError {
    /// No items were given to frame.
    EmptyContainer,
    /// Two items share a type code.
    DuplicateTypeCode,
    /// The human-readable prefix exceeds the padding block width.
    HrpTooLong,
    /// A payload is longer than the length prefix supports.
    PayloadTooLarge,
    /// The prefix is empty, mixed-case, or holds a non-printable character.
    InvalidHrp,
    /// The encoded string would exceed the supported maximum length.
    EncodedTooLong,
    /// The buffer is too short for the diffusion permutation.
    BufferTooShort,
    /// The buffer is too long for the diffusion permutation.
    BufferTooLong,
    /// The string's checksum does not match its contents.
    ChecksumInvalid,
    /// The string mixes upper and lower case.
    MixedCase,
    /// The string has no separator, or a character outside the alphabet.
    InvalidCharacter,
    /// The trailing bits left over after regrouping symbols are not zero.
    InvalidPadding,
    /// A length field is truncated, non-minimal, or overruns the buffer.
    MalformedContainer,
    /// The padding block names a different prefix than the expected one.
    HrpMismatch,
    /// The container holds a different number of items than expected.
    UnexpectedItemCount,
    /// An internal invariant of the codec failed.
    Internal,
}

/// What encoding a single typed payload returns, over byte strings.
pub open spec fn encode_container_bytes(hrp: Seq<u8>, tc: u64, payload: Seq<u8>) -> Result<
    Seq<u8>,
    CodecError,
> {
    match frame_spec(hrp, seq![(tc, payload)]) {
        Err(e) => Err(e),
        Ok(framed) => {
            if framed.len() < MIN_BUF {
                Err(CodecError::BufferTooShort)
            } else if framed.len() > MAX_BUF {
                Err(CodecError::BufferTooLong)
            } else {
                encode_text_spec(hrp, permuted(framed))
            }
        },
    }
}

/// What decoding a transport string returns, over byte strings.
pub open spec fn decode_container_bytes(s: Seq<u8>, expected: Seq<u8>) -> Result<
    (u64, Seq<u8>),
    CodecError,
> {
    match decode_text_spec(s) {
        Err(e) => Err(e),
        Ok((found, data)) => {
            if data.len() < MIN_BUF {
                Err(CodecError::BufferTooShort)
            } else if data.len() > MAX_BUF {
                Err(CodecError::BufferTooLong)
            } else {
                match unframe_spec(inverted(data), expected) {
                    Err(e) => Err(e),
                    Ok(its) => {
                        if its.len() != 1 {
                            Err(CodecError::UnexpectedItemCount)
                        } else {
                            Ok((its[0].0, its[0].1))
                        }
                    },
                }
            }
        },
    }
}

/// Relies on `String::from_utf8`: bytes below 128 are one-byte encodings of
/// the characters with the same values, so the string's characters are
/// exactly the given bytes.
#[verifier::external_body]
pub(crate) fn ascii_to_string(bytes: Vec<u8>) -> (r: String)
    requires
        forall|i: int| 0 <= i < bytes@.len() ==> bytes@[i] < 128,
    ensures
        r@ == bytes@.map_values(|b: u8| b as char),
{
    String::from_utf8(bytes).unwrap_or_default()
}

/// Encodes one typed payload under a prefix into a transport string.
///
/// This is the single encoding entry point: frame, permute, then render as
/// text; it fails with whichever stage's error came first.
pub fn encode_unified_container(hrp: &str, type_code: u64, payload: &[u8]) -> (r: Result<
    String,
    CodecError,
>)
    ensures
        match r {
            Ok(s) => (encode_container_bytes(hrp.spec_bytes(), type_code, payload@) matches Ok(
                bytes,
            ) && s@ == bytes.map_values(|b: u8| b as char)),
            Err(e) => encode_container_bytes(hrp.spec_bytes(), type_code, payload@) == Err::<
                Seq<u8>,
                CodecError,
            >(e),
        },
{
    let hb = hrp.as_bytes_vec();
    let pv = vstd::slice::slice_to_vec(payload);
    let mut items: Vec<(u64, Vec<u8>)> = Vec::new();
    items.push((type_code, pv));
    proof {
        assert(views_of(items@) =~= seq![(type_code, payload@)]);
    }
    let framed = match frame(&hb, items) {
        Err(e) => {
            return Err(e);
        },
        Ok(v) => v,
    };
    let permuted_buf = match permute(&framed) {
        Err(e) => {
            return Err(e);
        },
        Ok(v) => v,
    };
    let encoded = match encode_text(&hb, &permuted_buf) {
        Err(e) => {
            return Err(e);
        },
        Ok(v) => v,
    };
    proof {
        lemma_encoded_text_ascii(hb@, permuted_buf@);
    }
    Ok(ascii_to_string(encoded))
}

/// Every byte of a well-formed encoded string is printable ASCII, with no
/// uppercase letters, and the separator stands only at the prefix boundary.
proof fn lemma_encoded_text_ascii(hrp: Seq<u8>, data: Seq<u8>)
    requires
        hrp_ok(hrp),
    ensures
        forall|i: int| 0 <= i < encoded_text(hrp, data).len() ==> #[trigger] encoded_text(
            hrp,
            data,
        )[i] < 128,
        forall|i: int| 0 <= i < encoded_text(hrp, data).len() ==> !is_upper(
            #[trigger] encoded_text(hrp, data)[i],
        ),
        encoded_text(hrp, data)[hrp.len() as int] == SEPARATOR,
        forall|i: int|
            hrp.len() < i < encoded_text(hrp, data).len() ==> #[trigger] encoded_text(
                hrp,
                data,
            )[i] != SEPARATOR,
        encoded_text(hrp, data).len() == hrp.len() + 7 + sym_count(data.len()),
{
    let syms = symbols_of(data) + checksum_syms(hrp, symbols_of(data));
    let chars = syms.map_values(|v: u8| sym_char(v));
    let s = encoded_text(hrp, data);
    lemma_symbols_lt32(data);
    lemma_checksum_syms_lt32(hrp, symbols_of(data));
    assert(forall|j: int| 0 <= j < syms.len() ==> #[trigger] syms[j] < 32);
    assert(s.len() == hrp.len() + 1 + chars.len());
    assert forall|i: int| 0 <= i < s.len() implies #[trigger] s[i] < 128 && !is_upper(s[i]) && (i
        > hrp.len() ==> s[i] != SEPARATOR) by {
        if i < hrp.len() {
            assert(s[i] == hrp[i]);
            assert(33 <= hrp[i] <= 126 && !(65 <= hrp[i] <= 90));
        } else if i == hrp.len() {
            assert(s[i] == SEPARATOR);
        } else {
            assert(s[i] == chars[i - hrp.len() - 1]);
            let v = syms[i - hrp.len() - 1];
            assert(chars[i - hrp.len() - 1] == sym_char(v));
            lemma_charset(v);
        }
    }
    assert(s[hrp.len() as int] == SEPARATOR);
}

/// Decodes a transport string into its single typed payload, expecting the
/// given prefix in the padding block.
pub fn decode_unified_container(s: &str, expected_hrp: &str) -> (r: Result<
    (u64, Vec<u8>),
    CodecError,
>)
    ensures
        match r {
            Ok(pair) => (decode_container_bytes(s.spec_bytes(), expected_hrp.spec_bytes())
                matches Ok(sp) && sp.0 == pair.0 && sp.1 == pair.1@),
            Err(e) => decode_container_bytes(s.spec_bytes(), expected_hrp.spec_bytes()) == Err::<
                (u64, Seq<u8>),
                CodecError,
            >(e),
        },
{
    let sb = s.as_bytes_vec();
    let eb = expected_hrp.as_bytes_vec();
    let (_found_hrp, data) = match decode_text(&sb) {
        Err(e) => {
            return Err(e);
        },
        Ok(pair) => pair,
    };
    let buf = match invert(&data) {
        Err(e) => {
            return Err(e);
        },
        Ok(v) => v,
    };
    let mut items = match unframe(&buf, &eb) {
        Err(e) => {
            return Err(e);
        },
        Ok(v) => v,
    };
    if items.len() != 1 {
        proof {
            assert(views_of(items@).len() != 1);
        }
        return Err(CodecError::UnexpectedItemCount);
    }
    let (tc, payload) = items.remove(0);
    proof {
        assert(views_of(items@.insert(0, (tc, payload)))[0] == (tc, payload@));
    }
    Ok((tc, payload))
}

/// Law: a container encoded from any well-formed prefix, type code and
/// payload within bounds decodes, under the same expected prefix, back to
/// exactly that type code and payload.
pub proof fn lemma_container_round_trip(hrp: Seq<u8>, tc: u64, payload: Seq<u8>)
    requires
        hrp_ok(hrp),
        hrp.len() <= PAD_WIDTH,
        payload.len() <= MAX_PAYLOAD,
    ensures
        encode_container_bytes(hrp, tc, payload) matches Ok(s) && decode_container_bytes(s, hrp)
            == Ok::<(u64, Seq<u8>), CodecError>((tc, payload)),
{
    let framed = lemma_encode_frames(hrp, tc, payload);
    lemma_permute_invert_round_trip(framed);
    let data = permuted(framed);
    let s = encoded_text(hrp, data);
    lemma_decode_of_encoded(hrp, data);
    assert(encode_container_bytes(hrp, tc, payload) == Ok::<Seq<u8>, CodecError>(s));
    assert(decode_text_spec(s) == Ok::<(Seq<u8>, Seq<u8>), CodecError>((hrp, data)));
    assert(inverted(data) == framed);
    lemma_unframe_of_framed(hrp, tc, payload, framed);
}

/// The framing stage of a single in-bounds item always succeeds, and the
/// framed buffer is within the permutation's bounds.
proof fn lemma_encode_frames(hrp: Seq<u8>, tc: u64, payload: Seq<u8>) -> (framed: Seq<u8>)
    requires
        hrp_ok(hrp),
        hrp.len() <= PAD_WIDTH,
        payload.len() <= MAX_PAYLOAD,
    ensures
        frame_spec(hrp, seq![(tc, payload)]) == Ok::<Seq<u8>, CodecError>(framed),
        framed == item_bytes(tc, payload) + pad_hrp(hrp),
        MIN_BUF <= framed.len() <= MAX_BUF,
        framed.len() == varint_len(tc) + varint_len(payload.len() as u64) + payload.len()
            + PAD_WIDTH,
        encode_container_bytes(hrp, tc, payload) == encode_text_spec(hrp, permuted(framed)),
    decreases 0int,
{
    let its = seq![(tc, payload)];
    assert(!has_dup(its)) by {
        if has_dup(its) {
            let (i, j) = choose|i: int, j: int|
                0 <= i < j < its.len() && (#[trigger] its[i]).0 == (#[trigger] its[j]).0;
            assert(false);
        }
    }
    assert(!has_oversize(its)) by {
        if has_oversize(its) {
            let i = choose|i: int| 0 <= i < its.len() && (#[trigger] its[i]).1.len() > MAX_PAYLOAD;
            assert(its[0].1.len() <= MAX_PAYLOAD);
        }
    }
    assert(sort_items(its) == its) by {
        assert(its.drop_last() =~= Seq::<(u64, Seq<u8>)>::empty());
        assert(sort_items(Seq::<(u64, Seq<u8>)>::empty()) =~= Seq::<(u64, Seq<u8>)>::empty());
        assert(its.last() == (tc, payload));
        assert(insert_item(Seq::<(u64, Seq<u8>)>::empty(), (tc, payload)) =~= its);
    }
    assert(items_bytes(its) =~= item_bytes(tc, payload)) by {
        assert(its.drop_first() =~= Seq::<(u64, Seq<u8>)>::empty());
        assert(items_bytes(Seq::<(u64, Seq<u8>)>::empty()) == Seq::<u8>::empty());
        assert(item_bytes(tc, payload) + Seq::<u8>::empty() =~= item_bytes(tc, payload));
    }
    let framed = item_bytes(tc, payload) + pad_hrp(hrp);
    lemma_varint_bytes_len(tc);
    lemma_varint_bytes_len(payload.len() as u64);
    assert(varint_len(payload.len() as u64) <= 3);
    assert(framed.len() == varint_len(tc) + varint_len(payload.len() as u64) + payload.len()
        + PAD_WIDTH);
    assert(MIN_BUF <= framed.len() <= MAX_BUF);
    framed
}

/// Decoding the text layer of a well-formed encoded string recovers the
/// prefix and the data bytes exactly.
proof fn lemma_decode_of_encoded(hrp: Seq<u8>, data: Seq<u8>)
    requires
        hrp_ok(hrp),
        data.len() <= MAX_BUF,
        hrp.len() + 7 + sym_count(data.len()) <= MAX_ENCODED,
    ensures
        encode_text_spec(hrp, data) == Ok::<Seq<u8>, CodecError>(encoded_text(hrp, data)),
        decode_text_spec(encoded_text(hrp, data)) == Ok::<(Seq<u8>, Seq<u8>), CodecError>(
            (hrp, data),
        ),
        rfind_sep(encoded_text(hrp, data)) == Some(hrp.len() as int),
{
    let data_syms = symbols_of(data);
    let cs = checksum_syms(hrp, data_syms);
    let syms = data_syms + cs;
    let chars = syms.map_values(|v: u8| sym_char(v));
    let s = encoded_text(hrp, data);
    lemma_encoded_text_ascii(hrp, data);
    lemma_symbols_lt32(data);
    lemma_checksum_syms_lt32(hrp, data_syms);
    assert(s.len() <= MAX_ENCODED);
    // single case: no uppercase anywhere
    assert(!has_upper(s)) by {
        if has_upper(s) {
            let i = choose|i: int| 0 <= i < s.len() && is_upper(#[trigger] s[i]);
            assert(!is_upper(s[i]));
        }
    }
    assert(lowercased(s) =~= s) by {
        assert(forall|i: int|
            0 <= i < s.len() ==> #[trigger] lowercased(s)[i] == to_lower(s[i]) && to_lower(s[i])
                == s[i]);
    }
    // the separator stands exactly at the prefix boundary
    lemma_rfind_at(s, hrp.len() as int);
    assert(rfind_sep(s) == Some(hrp.len() as int));
    let p = hrp.len() as int;
    assert(s.take(p) =~= hrp);
    let dat = s.skip(p + 1);
    assert(dat =~= chars);
    assert(dat.len() == syms.len() >= 6);
    // every data character is in the alphabet and maps back to its symbol
    assert(forall|j: int| 0 <= j < syms.len() ==> #[trigger] syms[j] < 32);
    assert forall|i: int| 0 <= i < dat.len() implies char_sym(#[trigger] dat[i]) == Some(
        syms[i],
    ) by {
        assert(dat[i] == sym_char(syms[i]));
        lemma_charset(syms[i]);
    }
    assert(!(exists|i: int| 0 <= i < dat.len() && char_sym(#[trigger] dat[i]) is None));
    let got_syms = dat.map_values(|c: u8| char_sym(c)->Some_0);
    assert(got_syms =~= syms);
    // the checksum validates
    lemma_checksum_valid(hrp, data_syms);
    assert(polymod(hrp_expand(hrp) + syms) == crate::bech32::CHECKSUM_CONST);
    // the data symbols regroup to exactly the data bytes
    assert(syms.take(syms.len() - 6) =~= data_syms);
    lemma_symbols_round_trip(data);
    assert(bytes_of_symbols(data_syms) == Some(data));
}

/// Unframing the framed buffer of a single item under the same prefix gives
/// that item back.
proof fn lemma_unframe_of_framed(hrp: Seq<u8>, tc: u64, payload: Seq<u8>, framed: Seq<u8>)
    requires
        hrp_ok(hrp),
        hrp.len() <= PAD_WIDTH,
        payload.len() <= MAX_PAYLOAD,
        framed == item_bytes(tc, payload) + pad_hrp(hrp),
    ensures
        unframe_spec(framed, hrp) == Ok::<Seq<(u64, Seq<u8>)>, CodecError>(seq![(tc, payload)]),
{
    let its = seq![(tc, payload)];
    assert(items_bytes(its) =~= item_bytes(tc, payload)) by {
        assert(its.drop_first() =~= Seq::<(u64, Seq<u8>)>::empty());
        assert(items_bytes(Seq::<(u64, Seq<u8>)>::empty()) == Seq::<u8>::empty());
        assert(item_bytes(tc, payload) + Seq::<u8>::empty() =~= item_bytes(tc, payload));
    }
    assert(framed.len() == items_bytes(its).len() + PAD_WIDTH);
    assert(framed.subrange(0, items_bytes(its).len() as int) =~= items_bytes(its));
    assert(forall|j: int| 0 <= j < 1 ==> (#[trigger] its[j]).1.len() <= MAX_PAYLOAD);
    lemma_parse_items_of_encoding(framed, 0, its);
    assert(framed.skip(framed.len() - PAD_WIDTH) =~= pad_hrp(hrp));
}

/// Law: the encoding is deterministic. The result is a pure function of the
/// prefix, the type code and the payload, so equal inputs give equal
/// transport strings.
pub proof fn lemma_encode_deterministic(
    hrp1: Seq<u8>,
    tc1: u64,
    p1: Seq<u8>,
    hrp2: Seq<u8>,
    tc2: u64,
    p2: Seq<u8>,
)
    requires
        hrp1 == hrp2,
        tc1 == tc2,
        p1 == p2,
    ensures
        encode_container_bytes(hrp1, tc1, p1) == encode_container_bytes(hrp2, tc2, p2),
{
}

/// Law: one payload under two different prefixes gives two different
/// transport strings, and decoding under the wrong expected prefix fails
/// with `HrpMismatch`.
pub proof fn lemma_hrp_isolation(hrp1: Seq<u8>, hrp2: Seq<u8>, tc: u64, payload: Seq<u8>)
    requires
        hrp_ok(hrp1),
        hrp_ok(hrp2),
        hrp1.len() <= PAD_WIDTH,
        hrp2.len() <= PAD_WIDTH,
        hrp1 != hrp2,
        payload.len() <= MAX_PAYLOAD,
    ensures
        encode_container_bytes(hrp1, tc, payload) matches Ok(s1) && (encode_container_bytes(
            hrp2,
            tc,
            payload,
        ) matches Ok(s2) && s1 != s2),
        encode_container_bytes(hrp1, tc, payload) matches Ok(s1) && decode_container_bytes(s1, hrp2)
            == Err::<(u64, Seq<u8>), CodecError>(CodecError::HrpMismatch),
{
    let framed1 = lemma_encode_frames(hrp1, tc, payload);
    let framed2 = lemma_encode_frames(hrp2, tc, payload);
    lemma_permute_invert_round_trip(framed1);
    lemma_permute_invert_round_trip(framed2);
    let d1 = permuted(framed1);
    let d2 = permuted(framed2);
    lemma_decode_of_encoded(hrp1, d1);
    lemma_decode_of_encoded(hrp2, d2);
    let s1 = encoded_text(hrp1, d1);
    let s2 = encoded_text(hrp2, d2);
    // different prefixes force different strings: the last separator sits at
    // the prefix boundary in each
    assert(s1 != s2) by {
        if s1 == s2 {
            assert(rfind_sep(s1) == Some(hrp1.len() as int));
            assert(rfind_sep(s2) == Some(hrp2.len() as int));
            assert(hrp1.len() == hrp2.len());
            assert(s1.take(hrp1.len() as int) =~= hrp1);
            assert(s2.take(hrp2.len() as int) =~= hrp2);
            assert(hrp1 == hrp2);
        }
    }
    // decoding with the wrong expected prefix trips on the padding block
    assert(inverted(d1) == framed1);
    let its = parse_items(framed1, 0);
    assert(framed1.skip(framed1.len() - PAD_WIDTH) =~= pad_hrp(hrp1));
    assert(pad_hrp(hrp1) != pad_hrp(hrp2)) by {
        if pad_hrp(hrp1) == pad_hrp(hrp2) {
            if hrp1.len() == hrp2.len() {
                assert(forall|i: int|
                    0 <= i < hrp1.len() ==> #[trigger] hrp1[i] == pad_hrp(hrp1)[i]);
                assert(forall|i: int|
                    0 <= i < hrp2.len() ==> #[trigger] hrp2[i] == pad_hrp(hrp2)[i]);
                assert(hrp1 =~= hrp2);
            } else if hrp1.len() < hrp2.len() {
                assert(pad_hrp(hrp1)[hrp1.len() as int] == 0);
                assert(pad_hrp(hrp2)[hrp1.len() as int] == hrp2[hrp1.len() as int]);
                assert(hrp2[hrp1.len() as int] >= 33);
            } else {
                assert(pad_hrp(hrp2)[hrp2.len() as int] == 0);
                assert(pad_hrp(hrp1)[hrp2.len() as int] == hrp1[hrp2.len() as int]);
                assert(hrp1[hrp2.len() as int] >= 33);
            }
        }
    }
    assert(framed1.skip(framed1.len() - PAD_WIDTH) != pad_hrp(hrp2));
    lemma_unframe_of_framed(hrp1, tc, payload, framed1);
}

/// Law: a payload at the length prefix's supported maximum frames and
/// encodes; one byte past it fails with `PayloadTooLarge`.
pub proof fn lemma_payload_boundary(hrp: Seq<u8>, tc: u64, p_max: Seq<u8>, p_over: Seq<u8>)
    requires
        hrp_ok(hrp),
        hrp.len() <= PAD_WIDTH,
        p_max.len() == MAX_PAYLOAD,
        p_over.len() == MAX_PAYLOAD + 1,
    ensures
        encode_container_bytes(hrp, tc, p_max) matches Ok(s) && decode_container_bytes(s, hrp)
            == Ok::<(u64, Seq<u8>), CodecError>((tc, p_max)),
        encode_container_bytes(hrp, tc, p_over) == Err::<Seq<u8>, CodecError>(
            CodecError::PayloadTooLarge,
        ),
{
    lemma_container_round_trip(hrp, tc, p_max);
    let its = seq![(tc, p_over)];
    assert(its.len() == 1);
    assert(!has_dup(its)) by {
        if has_dup(its) {
            let (i, j) = choose|i: int, j: int|
                0 <= i < j < its.len() && (#[trigger] its[i]).0 == (#[trigger] its[j]).0;
            assert(false);
        }
    }
    assert(has_oversize(its)) by {
        assert(0 <= 0 < its.len() && (#[trigger] its[0]).1.len() > MAX_PAYLOAD);
    }
}

} // verus!
