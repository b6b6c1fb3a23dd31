//! Prefix-and-checksum text layer: renders permuted bytes as a prefixed,
//! checksum-protected string of alphabet characters, and reads one back.

use crate::bech32::{
    bytes_of_symbols, char_sym, char_sym_of, checksum_syms, checksum_values, create_checksum,
    from_symbols, hrp_expand, lemma_charset_inv, lemma_checksum_flip_detected, polymod,
    polymod_run, sym_char, sym_char_of, sym_count, symbols_of, to_symbols, CHECKSUM_CONST,
    MAX_ENCODED,
};
use crate::jumble::MAX_BUF;
use crate::zip316::CodecError;
use vstd::prelude::*;

verus! {

/// The separator between the prefix and the data characters.
pub const SEPARATOR: u8 = 49;

/// A well-formed prefix: nonempty, printable, and without uppercase letters,
/// so that encoded strings are single-case.
pub open spec fn hrp_ok(hrp: Seq<u8>) -> bool {
    1 <= hrp.len() && forall|i: int|
        0 <= i < hrp.len() ==> 33 <= #[trigger] hrp[i] <= 126 && !(65 <= hrp[i] <= 90)
}

/// The encoded string for a well-formed prefix and data bytes.
pub open spec fn encoded_text(hrp: Seq<u8>, data: Seq<u8>) -> Seq<u8> {
    let syms = symbols_of(data) + checksum_syms(hrp, symbols_of(data));
    hrp + seq![SEPARATOR] + syms.map_values(|v: u8| sym_char(v))
}

/// What `encode_text` returns for each input.
pub open spec fn encode_text_spec(hrp: Seq<u8>, data: Seq<u8>) -> Result<Seq<u8>, CodecError> {
    if !hrp_ok(hrp) {
        Err(CodecError::InvalidHrp)
    } else if data.len() > MAX_BUF || hrp.len() + 7 + sym_count(data.len()) > MAX_ENCODED {
        Err(CodecError::EncodedTooLong)
    } else {
        Ok(encoded_text(hrp, data))
    }
}

/// Checks a prefix for emptiness, unprintable bytes and uppercase letters.
pub fn check_hrp(hrp: &Vec<u8>) -> (r: bool)
    ensures
        r == hrp_ok(hrp@),
{
    if hrp.len() == 0 {
        return false;
    }
    let mut i: usize = 0;
    while i < hrp.len()
        invariant
            0 <= i <= hrp@.len(),
            forall|j: int| 0 <= j < i ==> 33 <= #[trigger] hrp@[j] <= 126 && !(65 <= hrp@[j] <= 90),
        decreases hrp@.len() - i,
    {
        let b = hrp[i];
        if b < 33 || b > 126 || (65 <= b && b <= 90) {
            return false;
        }
        i = i + 1;
    }
    true
}

/// Encodes data bytes under a prefix: the prefix, the separator, the 5-bit
/// symbols of the data, and six checksum symbols, all as alphabet bytes.
pub fn encode_text(hrp: &Vec<u8>, data: &Vec<u8>) -> (r: Result<Vec<u8>, CodecError>)
    ensures
        match r {
            Ok(v) => encode_text_spec(hrp@, data@) == Ok::<Seq<u8>, CodecError>(v@),
            Err(e) => encode_text_spec(hrp@, data@) == Err::<Seq<u8>, CodecError>(e),
        },
{
    if !check_hrp(hrp) {
        return Err(CodecError::InvalidHrp);
    }
    if data.len() > MAX_BUF {
        return Err(CodecError::EncodedTooLong);
    }
    if hrp.len() > MAX_ENCODED {
        return Err(CodecError::EncodedTooLong);
    }
    let nsym = (8 * data.len() + 4) / 5;
    if hrp.len() + 7 + nsym > MAX_ENCODED {
        return Err(CodecError::EncodedTooLong);
    }
    let data_syms = to_symbols(data);
    let cs = create_checksum(hrp, &data_syms);
    let mut all = data_syms;
    let mut cs_mut = cs;
    all.append(&mut cs_mut);
    let ghost all_syms = symbols_of(data@) + checksum_syms(hrp@, symbols_of(data@));
    proof {
        assert(all@ == all_syms);
    }
    let mut out: Vec<u8> = Vec::new();
    let mut i: usize = 0;
    while i < hrp.len()
        invariant
            0 <= i <= hrp@.len(),
            out@ == hrp@.take(i as int),
        decreases hrp@.len() - i,
    {
        out.push(hrp[i]);
        proof {
            assert(out@ =~= hrp@.take((i + 1) as int));
        }
        i = i + 1;
    }
    proof {
        assert(hrp@.take(hrp@.len() as int) =~= hrp@);
    }
    out.push(SEPARATOR);
    let ghost head = hrp@ + seq![SEPARATOR];
    proof {
        assert(out@ =~= head);
    }
    let mut k: usize = 0;
    while k < all.len()
        invariant
            0 <= k <= all@.len(),
            all@ == all_syms,
            forall|j: int| 0 <= j < all@.len() ==> all@[j] < 32,
            out@ == head + all@.take(k as int).map_values(|v: u8| sym_char(v)),
        decreases all@.len() - k,
    {
        let c = sym_char_of(all[k]);
        out.push(c);
        proof {
            assert(all@.take((k + 1) as int).map_values(|v: u8| sym_char(v)) =~= all@.take(
                k as int,
            ).map_values(|v: u8| sym_char(v)) + seq![sym_char(all@[k as int])]);
            assert(out@ =~= head + all@.take((k + 1) as int).map_values(|v: u8| sym_char(v)));
        }
        k = k + 1;
    }
    proof {
        assert(all@.take(all@.len() as int) =~= all@);
        assert(out@ =~= encoded_text(hrp@, data@));
    }
    Ok(out)
}

/// An uppercase ASCII letter.
pub open spec fn is_upper(b: u8) -> bool {
    65 <= b <= 90
}

/// A lowercase ASCII letter.
pub open spec fn is_lower(b: u8) -> bool {
    97 <= b <= 122
}

/// Whether any byte is an uppercase letter.
pub open spec fn has_upper(s: Seq<u8>) -> bool {
    exists|i: int| 0 <= i < s.len() && is_upper(#[trigger] s[i])
}

/// Whether any byte is a lowercase letter.
pub open spec fn has_lower(s: Seq<u8>) -> bool {
    exists|i: int| 0 <= i < s.len() && is_lower(#[trigger] s[i])
}

/// The byte with any uppercase letter folded to lowercase.
pub open spec fn to_lower(b: u8) -> u8 {
    if is_upper(b) {
        (b + 32) as u8
    } else {
        b
    }
}

/// The string folded to lowercase.
pub open spec fn lowercased(s: Seq<u8>) -> Seq<u8> {
    s.map_values(|b: u8| to_lower(b))
}

/// The position of the last separator byte, if any.
pub open spec fn rfind_sep(s: Seq<u8>) -> Option<int>
    decreases s.len(),
{
    if s.len() == 0 {
        None
    } else if s[s.len() - 1] == SEPARATOR {
        Some(s.len() - 1)
    } else {
        rfind_sep(s.drop_last())
    }
}

/// The last separator of a string whose bytes past `p` avoid the separator
/// stands at `p`.
pub proof fn lemma_rfind_at(t: Seq<u8>, p: int)
    requires
        0 <= p < t.len(),
        t[p] == SEPARATOR,
        forall|j: int| p < j < t.len() ==> t[j] != SEPARATOR,
    ensures
        rfind_sep(t) == Some(p),
    decreases t.len(),
{
    if t.len() - 1 == p {
    } else {
        assert(t[t.len() - 1] != SEPARATOR);
        let d = t.drop_last();
        assert(d[p] == t[p]);
        assert(forall|j: int| p < j < d.len() ==> #[trigger] d[j] == t[j]);
        lemma_rfind_at(d, p);
    }
}

/// What `decode_text` returns for each input string.
pub open spec fn decode_text_spec(s: Seq<u8>) -> Result<(Seq<u8>, Seq<u8>), CodecError> {
    if s.len() > MAX_ENCODED {
        Err(CodecError::EncodedTooLong)
    } else if has_upper(s) && has_lower(s) {
        Err(CodecError::MixedCase)
    } else {
        let t = lowercased(s);
        match rfind_sep(t) {
            None => Err(CodecError::InvalidCharacter),
            Some(p) => {
                let hrp = t.take(p);
                let dat = t.skip(p + 1);
                if !hrp_ok(hrp) {
                    Err(CodecError::InvalidHrp)
                } else if dat.len() < 6 {
                    Err(CodecError::InvalidCharacter)
                } else if exists|i: int| 0 <= i < dat.len() && char_sym(#[trigger] dat[i]) is None {
                    Err(CodecError::InvalidCharacter)
                } else {
                    let syms = dat.map_values(|c: u8| char_sym(c)->Some_0);
                    if polymod(hrp_expand(hrp) + syms) != CHECKSUM_CONST {
                        Err(CodecError::ChecksumInvalid)
                    } else {
                        match bytes_of_symbols(syms.take(syms.len() - 6)) {
                            None => Err(CodecError::InvalidPadding),
                            Some(bytes) => Ok((hrp, bytes)),
                        }
                    }
                }
            },
        }
    }
}

/// A string with no uppercase letter is its own lowercase form.
proof fn lemma_no_upper_lowercased(s: Seq<u8>)
    requires
        !has_upper(s),
    ensures
        lowercased(s) == s,
{
    assert forall|i: int| 0 <= i < s.len() implies #[trigger] lowercased(s)[i] == s[i] by {
        assert(!is_upper(s[i]));
    }
    assert(lowercased(s) =~= s);
}

/// The last-separator position really is the last: the byte there is the
/// separator and none after it is.
proof fn lemma_rfind_last(t: Seq<u8>)
    requires
        rfind_sep(t) is Some,
    ensures
        0 <= rfind_sep(t)->Some_0 < t.len(),
        t[rfind_sep(t)->Some_0] == SEPARATOR,
        forall|j: int| rfind_sep(t)->Some_0 < j < t.len() ==> #[trigger] t[j] != SEPARATOR,
    decreases t.len(),
{
    if t.len() > 0 && t[t.len() - 1] != SEPARATOR {
        lemma_rfind_last(t.drop_last());
        let q = rfind_sep(t)->Some_0;
        assert(t.drop_last()[q] == t[q]);
        assert(forall|j: int| q < j < t.len() - 1 ==> #[trigger] t[j] == t.drop_last()[j]);
    }
}

/// Law: the checksum catches every single-character substitution in the
/// data or checksum region. If a string decodes, and one character after its
/// separator is replaced by a different alphabet character, the result fails
/// with `ChecksumInvalid` — never a silent success with different data.
///
/// Stated for single-case strings, as the encoder produces; a substitution
/// inside the prefix region is left out: it moves two symbols of the
/// checksummed sequence at once, which the single-error argument does not
/// cover.
pub proof fn lemma_text_flip_checksum_invalid(s1: Seq<u8>, s2: Seq<u8>, p: int)
    requires
        !has_upper(s1),
        decode_text_spec(s1) is Ok,
        s2.len() == s1.len(),
        rfind_sep(s1)->Some_0 < p < s1.len(),
        char_sym(s2[p]) is Some,
        s2[p] != s1[p],
        forall|j: int| 0 <= j < s1.len() && j != p ==> #[trigger] s2[j] == s1[j],
    ensures
        decode_text_spec(s2) == Err::<(Seq<u8>, Seq<u8>), CodecError>(CodecError::ChecksumInvalid),
{
    lemma_no_upper_lowercased(s1);
    assert(lowercased(s1) == s1);
    assert(rfind_sep(s1) is Some);
    let q = rfind_sep(s1)->Some_0;
    lemma_rfind_last(s1);
    let hrp1 = s1.take(q);
    let dat1 = s1.skip(q + 1);
    assert(hrp_ok(hrp1));
    assert(dat1.len() >= 6);
    assert(!(exists|i: int| 0 <= i < dat1.len() && char_sym(#[trigger] dat1[i]) is None));
    let syms1 = dat1.map_values(|c: u8| char_sym(c)->Some_0);
    assert(polymod(hrp_expand(hrp1) + syms1) == CHECKSUM_CONST);
    // the substituted string folds, splits and maps the same way
    lemma_charset_inv(s2[p]);
    assert(char_sym(s1[p]) is Some) by {
        assert(dat1[p - q - 1] == s1[p]);
    }
    lemma_charset_inv(s1[p]);
    assert(!has_upper(s2)) by {
        if has_upper(s2) {
            let i = choose|i: int| 0 <= i < s2.len() && is_upper(#[trigger] s2[i]);
            if i != p {
                assert(is_upper(s1[i]));
                assert(has_upper(s1));
            }
        }
    }
    lemma_no_upper_lowercased(s2);
    lemma_rfind_at(s2, q);
    assert(rfind_sep(s2) == Some(q));
    let hrp2 = s2.take(q);
    let dat2 = s2.skip(q + 1);
    assert(hrp2 =~= hrp1);
    assert(forall|j: int| 0 <= j < dat2.len() && j != p - q - 1 ==> #[trigger] dat2[j] == dat1[j]);
    assert(dat2[p - q - 1] == s2[p]);
    assert forall|i: int| 0 <= i < dat2.len() implies char_sym(#[trigger] dat2[i]) is Some by {
        if i != p - q - 1 {
            assert(dat2[i] == dat1[i]);
        }
    }
    assert(!(exists|i: int| 0 <= i < dat2.len() && char_sym(#[trigger] dat2[i]) is None));
    let syms2 = dat2.map_values(|c: u8| char_sym(c)->Some_0);
    let k = p - q - 1;
    assert(syms1[k] != syms2[k]) by {
        assert(syms1[k] == char_sym(s1[p])->Some_0);
        assert(syms2[k] == char_sym(s2[p])->Some_0);
        if syms1[k] == syms2[k] {
            assert(sym_char(char_sym(s1[p])->Some_0) == s1[p]);
            assert(sym_char(char_sym(s2[p])->Some_0) == s2[p]);
        }
    }
    assert forall|j: int| 0 <= j < syms1.len() implies #[trigger] syms1[j] < 32 by {
        lemma_charset_inv(dat1[j]);
    }
    assert forall|j: int| 0 <= j < syms2.len() implies #[trigger] syms2[j] < 32 by {
        lemma_charset_inv(dat2[j]);
    }
    assert(forall|i: int| 0 <= i < hrp1.len() ==> #[trigger] hrp1[i] < 128);
    assert(forall|j: int| 0 <= j < syms1.len() && j != k ==> #[trigger] syms1[j] == syms2[j]);
    lemma_checksum_flip_detected(hrp1, syms1, syms2, k);
    assert(polymod(hrp_expand(hrp2) + syms2) != CHECKSUM_CONST);
    assert(s2.len() <= MAX_ENCODED);
}

/// Copies `v[from..to]` into a fresh vector.
pub(crate) fn subvec(v: &Vec<u8>, from: usize, to: usize) -> (r: Vec<u8>)
    requires
        from <= to <= v@.len(),
    ensures
        r@ == v@.subrange(from as int, to as int),
{
    let mut r: Vec<u8> = Vec::new();
    let mut i: usize = from;
    while i < to
        invariant
            from <= i <= to <= v@.len(),
            r@ == v@.subrange(from as int, i as int),
        decreases to - i,
    {
        r.push(v[i]);
        proof {
            assert(r@ =~= v@.subrange(from as int, (i + 1) as int));
        }
        i = i + 1;
    }
    r
}

/// Extending a prefix by one byte extends the case flags by that byte.
proof fn lemma_case_flags(s: Seq<u8>, i: int)
    requires
        0 <= i < s.len(),
    ensures
        has_upper(s.take(i + 1)) == (has_upper(s.take(i)) || is_upper(s[i])),
        has_lower(s.take(i + 1)) == (has_lower(s.take(i)) || is_lower(s[i])),
{
    let pre = s.take(i + 1);
    let cur = s.take(i);
    assert(pre[i] == s[i]);
    assert(forall|j: int| 0 <= j < i ==> pre[j] == #[trigger] cur[j]);
    if has_upper(pre) {
        let j = choose|j: int| 0 <= j < pre.len() && is_upper(#[trigger] pre[j]);
        if j < i {
            assert(is_upper(cur[j]));
            assert(has_upper(cur));
        } else {
            assert(is_upper(s[i]));
        }
    }
    if has_upper(cur) {
        let j = choose|j: int| 0 <= j < cur.len() && is_upper(#[trigger] cur[j]);
        assert(is_upper(pre[j]));
        assert(has_upper(pre));
    }
    if is_upper(s[i]) {
        assert(is_upper(pre[i]));
        assert(has_upper(pre));
    }
    if has_lower(pre) {
        let j = choose|j: int| 0 <= j < pre.len() && is_lower(#[trigger] pre[j]);
        if j < i {
            assert(is_lower(cur[j]));
            assert(has_lower(cur));
        } else {
            assert(is_lower(s[i]));
        }
    }
    if has_lower(cur) {
        let j = choose|j: int| 0 <= j < cur.len() && is_lower(#[trigger] cur[j]);
        assert(is_lower(pre[j]));
        assert(has_lower(pre));
    }
    if is_lower(s[i]) {
        assert(is_lower(pre[i]));
        assert(has_lower(pre));
    }
}

/// Decodes a text string into its prefix and data bytes, validating case,
/// separator, alphabet, checksum and padding.
pub fn decode_text(s: &Vec<u8>) -> (r: Result<(Vec<u8>, Vec<u8>), CodecError>)
    ensures
        match r {
            Ok(pair) => decode_text_spec(s@) == Ok::<(Seq<u8>, Seq<u8>), CodecError>(
                (pair.0@, pair.1@),
            ),
            Err(e) => decode_text_spec(s@) == Err::<(Seq<u8>, Seq<u8>), CodecError>(e),
        },
{
    if s.len() > MAX_ENCODED {
        return Err(CodecError::EncodedTooLong);
    }
    let mut saw_upper = false;
    let mut saw_lower = false;
    let mut i: usize = 0;
    while i < s.len()
        invariant
            0 <= i <= s@.len(),
            saw_upper == has_upper(s@.take(i as int)),
            saw_lower == has_lower(s@.take(i as int)),
        decreases s@.len() - i,
    {
        let b = s[i];
        proof {
            lemma_case_flags(s@, i as int);
        }
        if 65 <= b && b <= 90 {
            saw_upper = true;
        }
        if 97 <= b && b <= 122 {
            saw_lower = true;
        }
        i = i + 1;
    }
    proof {
        assert(s@.take(s@.len() as int) =~= s@);
    }
    if saw_upper && saw_lower {
        return Err(CodecError::MixedCase);
    }
    let mut t: Vec<u8> = Vec::new();
    let mut i2: usize = 0;
    while i2 < s.len()
        invariant
            0 <= i2 <= s@.len(),
            s@.len() <= MAX_ENCODED,
            !(has_upper(s@) && has_lower(s@)),
            t@ == lowercased(s@.take(i2 as int)),
        decreases s@.len() - i2,
    {
        let b = s[i2];
        let lb = if 65 <= b && b <= 90 {
            b + 32
        } else {
            b
        };
        t.push(lb);
        proof {
            assert(t@ =~= lowercased(s@.take((i2 + 1) as int))) by {
                assert(s@.take((i2 + 1) as int) =~= s@.take(i2 as int).push(b));
                assert(lowercased(s@.take(i2 as int).push(b)) =~= lowercased(
                    s@.take(i2 as int),
                ).push(to_lower(b)));
            }
        }
        i2 = i2 + 1;
    }
    proof {
        assert(s@.take(s@.len() as int) =~= s@);
    }
    let mut sep: Option<usize> = None;
    let mut i3: usize = 0;
    while i3 < t.len()
        invariant
            0 <= i3 <= t@.len(),
            s@.len() <= MAX_ENCODED,
            !(has_upper(s@) && has_lower(s@)),
            t@ == lowercased(s@),
            match sep {
                Some(p) => p < i3 && rfind_sep(t@.take(i3 as int)) == Some(p as int),
                None => rfind_sep(t@.take(i3 as int)) is None,
            },
        decreases t@.len() - i3,
    {
        let b = t[i3];
        proof {
            let pre = t@.take((i3 + 1) as int);
            assert(pre.drop_last() =~= t@.take(i3 as int));
            assert(pre[pre.len() - 1] == b);
        }
        if b == SEPARATOR {
            sep = Some(i3);
        }
        i3 = i3 + 1;
    }
    proof {
        assert(t@.take(t@.len() as int) =~= t@);
    }
    let p = match sep {
        None => {
            return Err(CodecError::InvalidCharacter);
        },
        Some(p) => p,
    };
    let hrp = subvec(&t, 0, p);
    proof {
        assert(hrp@ =~= lowercased(s@).take(p as int));
    }
    if !crate::text::check_hrp(&hrp) {
        return Err(CodecError::InvalidHrp);
    }
    let dat = subvec(&t, p + 1, t.len());
    proof {
        assert(dat@ =~= lowercased(s@).skip(p + 1));
    }
    if dat.len() < 6 {
        return Err(CodecError::InvalidCharacter);
    }
    let mut syms: Vec<u8> = Vec::new();
    let mut i4: usize = 0;
    while i4 < dat.len()
        invariant
            0 <= i4 <= dat@.len(),
            s@.len() <= MAX_ENCODED,
            !(has_upper(s@) && has_lower(s@)),
            t@ == lowercased(s@),
            rfind_sep(t@) == Some(p as int),
            0 <= p < t@.len(),
            hrp@ == t@.take(p as int),
            hrp_ok(hrp@),
            dat@ == t@.skip(p as int + 1),
            dat@.len() >= 6,
            forall|j: int| 0 <= j < i4 ==> char_sym(#[trigger] dat@[j]) is Some,
            syms@ == dat@.take(i4 as int).map_values(|c: u8| char_sym(c)->Some_0),
        decreases dat@.len() - i4,
    {
        match char_sym_of(dat[i4]) {
            None => {
                proof {
                    let dat_spec = lowercased(s@).skip(p as int + 1);
                    assert(0 <= i4 < dat_spec.len() && char_sym(#[trigger] dat_spec[i4 as int])
                        is None);
                }
                return Err(CodecError::InvalidCharacter);
            },
            Some(v) => {
                syms.push(v);
                proof {
                    assert(dat@.take((i4 + 1) as int).map_values(|c: u8| char_sym(c)->Some_0)
                        =~= dat@.take(i4 as int).map_values(|c: u8| char_sym(c)->Some_0) + seq![
                        char_sym(dat@[i4 as int])->Some_0,
                    ]);
                }
            },
        }
        i4 = i4 + 1;
    }
    proof {
        assert(dat@.take(dat@.len() as int) =~= dat@);
    }
    let vals = checksum_values(&hrp, &syms, 0);
    proof {
        assert(Seq::new(0nat, |i: int| 0u8) =~= Seq::<u8>::empty());
        assert(vals@ =~= hrp_expand(hrp@) + syms@);
    }
    let pm = polymod_run(&vals);
    if pm != CHECKSUM_CONST {
        return Err(CodecError::ChecksumInvalid);
    }
    let data_syms = subvec(&syms, 0, syms.len() - 6);
    proof {
        assert(data_syms@ =~= syms@.take(syms@.len() - 6));
    }
    match from_symbols(&data_syms) {
        None => Err(CodecError::InvalidPadding),
        Some(bytes) => Ok((hrp, bytes)),
    }
}

} // verus!
