//! Radix-32 symbol layer: bit regrouping, the symbol alphabet, and the
//! polynomial checksum over GF(32).
//!
//! Bytes are split into 5-bit symbols, most significant bit first, with the
//! last symbol zero-padded; the checksum is a 30-bit linear-feedback value
//! over the expanded prefix and the symbols, offset by a fixed constant.

use crate::jumble::MAX_BUF;
use vstd::prelude::*;

verus! {

/// The checksum offset constant: a valid string's residue.
pub const CHECKSUM_CONST: u32 = 0x2bc830a3;

/// Longest encoded string the codec produces or accepts.
pub const MAX_ENCODED: usize = 419454;

/// Bit `p` of the byte string `b`, counting from the first byte's most
/// significant bit; zero past the end.
pub open spec fn bit_at(b: Seq<u8>, p: nat) -> u8 {
    if p < 8 * b.len() {
        (b[(p / 8) as int] >> ((7 - (p % 8)) as u8)) & 1
    } else {
        0
    }
}

/// Bit `p` of a 5-bit symbol string, counting from each symbol's fifth bit.
pub open spec fn sym_bit_at(s: Seq<u8>, p: nat) -> u8 {
    if p < 5 * s.len() {
        (s[(p / 5) as int] >> ((4 - (p % 5)) as u8)) & 1
    } else {
        0
    }
}

/// How many symbols `n` bytes become.
pub open spec fn sym_count(n: nat) -> nat {
    (8 * n + 4) / 5
}

/// How many bytes `m` symbols yield.
pub open spec fn byte_count(m: nat) -> nat {
    (5 * m) / 8
}

/// Symbol `i` of the regrouped form of `b`.
pub open spec fn symbol_at(b: Seq<u8>, i: nat) -> u8 {
    (16 * bit_at(b, 5 * i) + 8 * bit_at(b, 5 * i + 1) + 4 * bit_at(b, 5 * i + 2) + 2 * bit_at(
        b,
        5 * i + 3,
    ) + bit_at(b, 5 * i + 4)) as u8
}

/// Byte `i` recovered from a symbol string.
pub open spec fn byte_at(s: Seq<u8>, i: nat) -> u8 {
    (128 * sym_bit_at(s, 8 * i) + 64 * sym_bit_at(s, 8 * i + 1) + 32 * sym_bit_at(s, 8 * i + 2)
        + 16 * sym_bit_at(s, 8 * i + 3) + 8 * sym_bit_at(s, 8 * i + 4) + 4 * sym_bit_at(
        s,
        8 * i + 5,
    ) + 2 * sym_bit_at(s, 8 * i + 6) + sym_bit_at(s, 8 * i + 7)) as u8
}

/// The 5-bit regrouping of `b`, last symbol zero-padded.
pub open spec fn symbols_of(b: Seq<u8>) -> Seq<u8> {
    Seq::new(sym_count(b.len()), |i: int| symbol_at(b, i as nat))
}

/// The bytes a symbol string stands for: defined when the symbol count is
/// minimal for the byte count and every padding bit is zero.
pub open spec fn bytes_of_symbols(s: Seq<u8>) -> Option<Seq<u8>> {
    let m = s.len();
    let n = byte_count(m);
    if 5 * m - 8 * n < 5 && (forall|p: nat| 8 * n <= p < 5 * m ==> sym_bit_at(s, p) == 0) {
        Some(Seq::new(n, |i: int| byte_at(s, i as nat)))
    } else {
        None
    }
}

proof fn lemma_divmod(k: nat, j: nat, d: nat)
    requires
        j < d,
        0 < d,
    ensures
        ((d * k + j) as int) / (d as int) == k,
        ((d * k + j) as int) % (d as int) == j,
{
    assert((d * k + j) as int == (k as int) * (d as int) + (j as int)) by (nonlinear_arith);
    vstd::arithmetic::div_mod::lemma_fundamental_div_mod_converse(
        (d * k + j) as int,
        d as int,
        k as int,
        j as int,
    );
}

/// A bit is zero or one.
proof fn lemma_bit_le_1(x: u8, sh: u8)
    requires
        sh < 8,
    ensures
        (x >> sh) & 1 <= 1,
{
    assert(sh < 8 ==> ((x >> sh) & 1) <= 1) by (bit_vector);
}

proof fn lemma_bit_at_le_1(b: Seq<u8>, p: nat)
    ensures
        bit_at(b, p) <= 1,
{
    if p < 8 * b.len() {
        lemma_divmod((p / 8) as nat, (p % 8) as nat, 8);
        lemma_bit_le_1(b[(p / 8) as int], (7 - (p % 8)) as u8);
    }
}

/// Each bit of a regrouped symbol is the matching bit of the bytes.
proof fn lemma_sym_bit_matches(b: Seq<u8>, p: nat)
    requires
        p < 5 * sym_count(b.len()),
    ensures
        sym_bit_at(symbols_of(b), p) == bit_at(b, p),
{
    let s = symbols_of(b);
    let k = p / 5;
    let j = p % 5;
    vstd::arithmetic::div_mod::lemma_fundamental_div_mod(p as int, 5);
    assert(p == 5 * k + j);
    assert(k < sym_count(b.len()));
    let sym = s[k as int];
    assert(sym == symbol_at(b, k));
    let c0 = bit_at(b, 5 * k);
    let c1 = bit_at(b, 5 * k + 1);
    let c2 = bit_at(b, 5 * k + 2);
    let c3 = bit_at(b, 5 * k + 3);
    let c4 = bit_at(b, 5 * k + 4);
    lemma_bit_at_le_1(b, 5 * k);
    lemma_bit_at_le_1(b, 5 * k + 1);
    lemma_bit_at_le_1(b, 5 * k + 2);
    lemma_bit_at_le_1(b, 5 * k + 3);
    lemma_bit_at_le_1(b, 5 * k + 4);
    assert(sym == 16 * c0 + 8 * c1 + 4 * c2 + 2 * c3 + c4);
    if j == 0 {
        assert(sym == 16 * c0 + 8 * c1 + 4 * c2 + 2 * c3 + c4 && c0 <= 1 && c1 <= 1 && c2 <= 1
            && c3 <= 1 && c4 <= 1 ==> (sym >> 4) & 1 == c0) by (bit_vector);
    } else if j == 1 {
        assert(sym == 16 * c0 + 8 * c1 + 4 * c2 + 2 * c3 + c4 && c0 <= 1 && c1 <= 1 && c2 <= 1
            && c3 <= 1 && c4 <= 1 ==> (sym >> 3) & 1 == c1) by (bit_vector);
    } else if j == 2 {
        assert(sym == 16 * c0 + 8 * c1 + 4 * c2 + 2 * c3 + c4 && c0 <= 1 && c1 <= 1 && c2 <= 1
            && c3 <= 1 && c4 <= 1 ==> (sym >> 2) & 1 == c2) by (bit_vector);
    } else if j == 3 {
        assert(sym == 16 * c0 + 8 * c1 + 4 * c2 + 2 * c3 + c4 && c0 <= 1 && c1 <= 1 && c2 <= 1
            && c3 <= 1 && c4 <= 1 ==> (sym >> 1) & 1 == c3) by (bit_vector);
    } else {
        assert(sym == 16 * c0 + 8 * c1 + 4 * c2 + 2 * c3 + c4 && c0 <= 1 && c1 <= 1 && c2 <= 1
            && c3 <= 1 && c4 <= 1 ==> (sym >> 0) & 1 == c4) by (bit_vector);
    }
}

/// Regrouping bytes into symbols and back is lossless.
pub proof fn lemma_symbols_round_trip(b: Seq<u8>)
    ensures
        bytes_of_symbols(symbols_of(b)) == Some(b),
{
    let n = b.len();
    let m = sym_count(n);
    let s = symbols_of(b);
    vstd::arithmetic::div_mod::lemma_fundamental_div_mod((8 * n + 4) as int, 5);
    assert(8 * n <= 5 * m <= 8 * n + 4);
    assert((5 * m) as int == (n as int) * 8 + (5 * m - 8 * n)) by (nonlinear_arith);
    vstd::arithmetic::div_mod::lemma_fundamental_div_mod_converse(
        (5 * m) as int,
        8,
        n as int,
        (5 * m - 8 * n) as int,
    );
    assert(byte_count(m) == n);
    assert forall|p: nat| 8 * n <= p < 5 * m implies sym_bit_at(s, p) == 0 by {
        lemma_sym_bit_matches(b, p);
    }
    let dec = bytes_of_symbols(s);
    assert(dec is Some);
    let out = dec->Some_0;
    assert forall|i: int| 0 <= i < n implies out[i] == b[i] by {
        let x = b[i];
        let d0 = sym_bit_at(s, (8 * i) as nat);
        let d1 = sym_bit_at(s, (8 * i + 1) as nat);
        let d2 = sym_bit_at(s, (8 * i + 2) as nat);
        let d3 = sym_bit_at(s, (8 * i + 3) as nat);
        let d4 = sym_bit_at(s, (8 * i + 4) as nat);
        let d5 = sym_bit_at(s, (8 * i + 5) as nat);
        let d6 = sym_bit_at(s, (8 * i + 6) as nat);
        let d7 = sym_bit_at(s, (8 * i + 7) as nat);
        lemma_sym_bit_matches(b, (8 * i) as nat);
        lemma_divmod(i as nat, 0, 8);
        lemma_sym_bit_matches(b, (8 * i + 1) as nat);
        lemma_divmod(i as nat, 1, 8);
        lemma_sym_bit_matches(b, (8 * i + 2) as nat);
        lemma_divmod(i as nat, 2, 8);
        lemma_sym_bit_matches(b, (8 * i + 3) as nat);
        lemma_divmod(i as nat, 3, 8);
        lemma_sym_bit_matches(b, (8 * i + 4) as nat);
        lemma_divmod(i as nat, 4, 8);
        lemma_sym_bit_matches(b, (8 * i + 5) as nat);
        lemma_divmod(i as nat, 5, 8);
        lemma_sym_bit_matches(b, (8 * i + 6) as nat);
        lemma_divmod(i as nat, 6, 8);
        lemma_sym_bit_matches(b, (8 * i + 7) as nat);
        lemma_divmod(i as nat, 7, 8);
        assert(d0 == (x >> 7) & 1 && d1 == (x >> 6) & 1 && d2 == (x >> 5) & 1 && d3 == (x >> 4) & 1
            && d4 == (x >> 3) & 1 && d5 == (x >> 2) & 1 && d6 == (x >> 1) & 1 && d7 == (x >> 0)
            & 1);
        assert(128 * ((x >> 7) & 1) + 64 * ((x >> 6) & 1) + 32 * ((x >> 5) & 1) + 16 * ((x >> 4)
            & 1) + 8 * ((x >> 3) & 1) + 4 * ((x >> 2) & 1) + 2 * ((x >> 1) & 1) + ((x >> 0) & 1)
            == x) by (bit_vector);
        assert(out[i] == byte_at(s, i as nat));
    }
    assert(out =~= b);
}

/// Every regrouped symbol is a 5-bit value.
pub proof fn lemma_symbols_lt32(b: Seq<u8>)
    ensures
        forall|i: int| 0 <= i < symbols_of(b).len() ==> #[trigger] symbols_of(b)[i] < 32,
{
    assert forall|i: int| 0 <= i < symbols_of(b).len() implies #[trigger] symbols_of(b)[i]
        < 32 by {
        let k = i as nat;
        lemma_bit_at_le_1(b, 5 * k);
        lemma_bit_at_le_1(b, 5 * k + 1);
        lemma_bit_at_le_1(b, 5 * k + 2);
        lemma_bit_at_le_1(b, 5 * k + 3);
        lemma_bit_at_le_1(b, 5 * k + 4);
        assert(symbols_of(b)[i] == symbol_at(b, k));
    }
}

/// Every checksum symbol is a 5-bit value.
pub proof fn lemma_checksum_syms_lt32(hrp: Seq<u8>, data_syms: Seq<u8>)
    ensures
        checksum_syms(hrp, data_syms).len() == 6,
        forall|i: int|
            0 <= i < 6 ==> #[trigger] checksum_syms(hrp, data_syms)[i] < 32,
{
    let pm = (polymod(hrp_expand(hrp) + data_syms + seq![0u8, 0u8, 0u8, 0u8, 0u8, 0u8])
        ^ CHECKSUM_CONST) as u32;
    assert(((pm >> 25) & 31) < 32 && ((pm >> 20) & 31) < 32 && ((pm >> 15) & 31) < 32 && ((pm
        >> 10) & 31) < 32 && ((pm >> 5) & 31) < 32 && (pm & 31) < 32) by (bit_vector);
}

/// The symbol alphabet: symbol value to ASCII byte.
pub open spec fn sym_char(v: u8) -> u8 {
    match v {
        0 => 113,  // q
        1 => 112,  // p
        2 => 122,  // z
        3 => 114,  // r
        4 => 121,  // y
        5 => 57,  // 9
        6 => 120,  // x
        7 => 56,  // 8
        8 => 103,  // g
        9 => 102,  // f
        10 => 50,  // 2
        11 => 116,  // t
        12 => 118,  // v
        13 => 100,  // d
        14 => 119,  // w
        15 => 48,  // 0
        16 => 115,  // s
        17 => 51,  // 3
        18 => 106,  // j
        19 => 110,  // n
        20 => 53,  // 5
        21 => 52,  // 4
        22 => 107,  // k
        23 => 104,  // h
        24 => 99,  // c
        25 => 101,  // e
        26 => 54,  // 6
        27 => 109,  // m
        28 => 117,  // u
        29 => 97,  // a
        30 => 55,  // 7
        _ => 108,  // l
    }
}

/// The inverse alphabet: ASCII byte to symbol value, `None` outside it.
pub open spec fn char_sym(c: u8) -> Option<u8> {
    match c {
        113 => Some(0u8),
        112 => Some(1u8),
        122 => Some(2u8),
        114 => Some(3u8),
        121 => Some(4u8),
        57 => Some(5u8),
        120 => Some(6u8),
        56 => Some(7u8),
        103 => Some(8u8),
        102 => Some(9u8),
        50 => Some(10u8),
        116 => Some(11u8),
        118 => Some(12u8),
        100 => Some(13u8),
        119 => Some(14u8),
        48 => Some(15u8),
        115 => Some(16u8),
        51 => Some(17u8),
        106 => Some(18u8),
        110 => Some(19u8),
        53 => Some(20u8),
        52 => Some(21u8),
        107 => Some(22u8),
        104 => Some(23u8),
        99 => Some(24u8),
        101 => Some(25u8),
        54 => Some(26u8),
        109 => Some(27u8),
        117 => Some(28u8),
        97 => Some(29u8),
        55 => Some(30u8),
        108 => Some(31u8),
        _ => None,
    }
}

/// The alphabet maps back to itself, stays clear of the separator, and holds
/// no uppercase letter.
pub proof fn lemma_charset(v: u8)
    requires
        v < 32,
    ensures
        char_sym(sym_char(v)) == Some(v),
        sym_char(v) != 49,
        !(65 <= sym_char(v) <= 90),
        33 <= sym_char(v) <= 126,
{
}

/// A byte the inverse alphabet accepts is an alphabet byte: printable,
/// lowercase, distinct from the separator, and mapping back to its symbol.
pub proof fn lemma_charset_inv(c: u8)
    requires
        char_sym(c) is Some,
    ensures
        char_sym(c)->Some_0 < 32,
        sym_char(char_sym(c)->Some_0) == c,
        33 <= c <= 126,
        !(65 <= c <= 90),
        c != 49,
{
}

/// The generator constants mixed in for each set bit of the top five bits of
/// the running checksum.
pub open spec fn gen_mix(t: u32) -> u32 {
    ((((t & 1) * 0x3b6a57b2) as u32) ^ ((((t >> 1) & 1) * 0x26508e6d) as u32) ^ ((((t >> 2) & 1)
        * 0x1ea119fa) as u32) ^ ((((t >> 3) & 1) * 0x3d4233dd) as u32) ^ ((((t >> 4) & 1)
        * 0x2a1462b3) as u32)) as u32
}

/// One step of the linear-feedback checksum.
pub open spec fn polymod_step(chk: u32, v: u8) -> u32 {
    ((((chk & 0x1ffffff) << 5) ^ gen_mix(chk >> 25)) ^ (v as u32)) as u32
}

/// The checksum state after processing `s[i..]` starting from `chk`.
pub open spec fn polymod_from(s: Seq<u8>, i: nat, chk: u32) -> u32
    decreases s.len() - i,
{
    if i >= s.len() {
        chk
    } else {
        polymod_from(s, (i + 1) as nat, polymod_step(chk, s[i as int]))
    }
}

/// The full checksum of a value string.
pub open spec fn polymod(s: Seq<u8>) -> u32 {
    polymod_from(s, 0, 1)
}

/// The prefix expanded for the checksum: high bits, a zero, then low bits.
pub open spec fn hrp_expand(hrp: Seq<u8>) -> Seq<u8> {
    Seq::new(hrp.len(), |i: int| hrp[i] >> 5) + seq![0u8] + Seq::new(
        hrp.len(),
        |i: int| hrp[i] & 31,
    )
}

/// The six checksum symbols appended to `data_syms` under `hrp`.
pub open spec fn checksum_syms(hrp: Seq<u8>, data_syms: Seq<u8>) -> Seq<u8> {
    let pm = (polymod(hrp_expand(hrp) + data_syms + seq![0u8, 0u8, 0u8, 0u8, 0u8, 0u8])
        ^ CHECKSUM_CONST) as u32;
    seq![
        ((pm >> 25) & 31) as u8,
        ((pm >> 20) & 31) as u8,
        ((pm >> 15) & 31) as u8,
        ((pm >> 10) & 31) as u8,
        ((pm >> 5) & 31) as u8,
        (pm & 31) as u8,
    ]
}

/// Processing a suffix is processing the rest of the sequence.
proof fn lemma_polymod_shift(s: Seq<u8>, i: nat, chk: u32)
    requires
        i <= s.len(),
    ensures
        polymod_from(s, i, chk) == polymod_from(s.skip(i as int), 0, chk),
    decreases s.len() - i,
{
    if i < s.len() {
        lemma_polymod_shift(s, (i + 1) as nat, polymod_step(chk, s[i as int]));
        assert(s.skip(i as int).len() > 0);
        assert(s.skip(i as int)[0] == s[i as int]);
        assert(s.skip((i + 1) as int) =~= s.skip(i as int).skip(1));
        lemma_polymod_shift(s.skip(i as int), 1, polymod_step(chk, s[i as int]));
    } else {
        assert(s.skip(i as int).len() == 0);
    }
}

/// Processing a concatenation processes the parts in order.
pub proof fn lemma_polymod_concat(s: Seq<u8>, t: Seq<u8>, chk: u32)
    ensures
        polymod_from(s + t, 0, chk) == polymod_from(t, 0, polymod_from(s, 0, chk)),
    decreases s.len(),
{
    if s.len() == 0 {
        assert(s + t =~= t);
    } else {
        assert((s + t)[0] == s[0]);
        let c1 = polymod_step(chk, s[0]);
        lemma_polymod_shift(s + t, 1, c1);
        assert((s + t).skip(1) =~= s.skip(1) + t);
        lemma_polymod_concat(s.skip(1), t, c1);
        lemma_polymod_shift(s, 1, c1);
    }
}

/// The checksum state stays below `2^30` when every value is below 32.
pub proof fn lemma_polymod_bound(s: Seq<u8>, i: nat, chk: u32)
    requires
        chk < 0x40000000,
        forall|j: int| 0 <= j < s.len() ==> s[j] < 32,
    ensures
        polymod_from(s, i, chk) < 0x40000000,
    decreases s.len() - i,
{
    if i < s.len() {
        let v = s[i as int];
        assert(chk < 0x40000000 && v < 32 ==> ((((chk & 0x1ffffff) << 5) ^ ((((chk >> 25) & 1)
            * 0x3b6a57b2) as u32 ^ ((((chk >> 25) >> 1) & 1) * 0x26508e6d) as u32 ^ ((((chk >> 25)
            >> 2) & 1) * 0x1ea119fa) as u32 ^ ((((chk >> 25) >> 3) & 1) * 0x3d4233dd) as u32 ^ ((((
        chk >> 25) >> 4) & 1) * 0x2a1462b3) as u32)) ^ (v as u32)) < 0x40000000) by (bit_vector);
        assert(polymod_step(chk, v) < 0x40000000);
        lemma_polymod_bound(s, (i + 1) as nat, polymod_step(chk, v));
    }
}

/// Each step is linear over XOR in the state: stepping `c ^ d` equals the
/// step of `c` XOR the zero-input step of `d`.
proof fn lemma_step_linear(c: u32, d: u32, v: u8)
    ensures
        polymod_step((c ^ d) as u32, v) == (polymod_step(c, v) ^ polymod_step(d, 0)) as u32,
{
    let x = c;
    let y = d;
    assert((((((x ^ y) & 0x1ffffff) << 5) ^ (((((x ^ y) >> 25) & 1) * 0x3b6a57b2) as u32 ^ ((((x
        ^ y) >> 25 >> 1) & 1) * 0x26508e6d) as u32 ^ ((((x ^ y) >> 25 >> 2) & 1)
        * 0x1ea119fa) as u32 ^ ((((x ^ y) >> 25 >> 3) & 1) * 0x3d4233dd) as u32 ^ ((((x ^ y) >> 25
        >> 4) & 1) * 0x2a1462b3) as u32)) ^ (v as u32)) == ((((x & 0x1ffffff) << 5) ^ ((((x >> 25)
        & 1) * 0x3b6a57b2) as u32 ^ (((x >> 25 >> 1) & 1) * 0x26508e6d) as u32 ^ (((x >> 25 >> 2)
        & 1) * 0x1ea119fa) as u32 ^ (((x >> 25 >> 3) & 1) * 0x3d4233dd) as u32 ^ (((x >> 25 >> 4)
        & 1) * 0x2a1462b3) as u32)) ^ (v as u32)) ^ ((((y & 0x1ffffff) << 5) ^ ((((y >> 25) & 1)
        * 0x3b6a57b2) as u32 ^ (((y >> 25 >> 1) & 1) * 0x26508e6d) as u32 ^ (((y >> 25 >> 2) & 1)
        * 0x1ea119fa) as u32 ^ (((y >> 25 >> 3) & 1) * 0x3d4233dd) as u32 ^ (((y >> 25 >> 4) & 1)
        * 0x2a1462b3) as u32)) ^ 0)) by (bit_vector);
    assert(gen_mix((c ^ d) >> 25) == ((((((c ^ d) >> 25) & 1) * 0x3b6a57b2) as u32 ^ ((((c ^ d)
        >> 25 >> 1) & 1) * 0x26508e6d) as u32 ^ ((((c ^ d) >> 25 >> 2) & 1) * 0x1ea119fa) as u32
        ^ ((((c ^ d) >> 25 >> 3) & 1) * 0x3d4233dd) as u32 ^ ((((c ^ d) >> 25 >> 4) & 1)
        * 0x2a1462b3) as u32)) as u32) by {
        assert((c ^ d) >> 25 >> 1 == ((c ^ d) >> 25) >> 1) by (bit_vector);
    }
}

/// Appending the six checksum symbols drives the checksum to the constant.
pub proof fn lemma_checksum_valid(hrp: Seq<u8>, data_syms: Seq<u8>)
    requires
        forall|i: int| 0 <= i < hrp.len() ==> hrp[i] < 128,
        forall|i: int| 0 <= i < data_syms.len() ==> data_syms[i] < 32,
    ensures
        polymod(hrp_expand(hrp) + (data_syms + checksum_syms(hrp, data_syms))) == CHECKSUM_CONST,
{
    let head = hrp_expand(hrp) + data_syms;
    let zeros = seq![0u8, 0u8, 0u8, 0u8, 0u8, 0u8];
    let cs = checksum_syms(hrp, data_syms);
    assert(hrp_expand(hrp) + data_syms + zeros =~= head + zeros);
    assert(hrp_expand(hrp) + (data_syms + cs) =~= head + cs);
    let c0 = polymod_from(head, 0, 1);
    lemma_polymod_concat(head, zeros, 1u32);
    lemma_polymod_concat(head, cs, 1u32);
    lemma_hrp_expand_small(hrp);
    lemma_polymod_bound(head, 0, 1);
    let pm = polymod_from(zeros, 0, c0);
    lemma_polymod_bound(zeros, 0, c0);
    let x = (pm ^ CHECKSUM_CONST) as u32;
    assert(x < 0x40000000) by {
        assert(pm < 0x40000000 ==> (pm ^ 0x2bc830a3u32) < 0x40000000) by (bit_vector);
    }
    // the six zero steps that define the raw residue
    let z1 = polymod_step(c0, 0);
    let z2 = polymod_step(z1, 0);
    let z3 = polymod_step(z2, 0);
    let z4 = polymod_step(z3, 0);
    let z5 = polymod_step(z4, 0);
    let z6 = polymod_step(z5, 0);
    assert(zeros[0] == 0 && zeros[1] == 0 && zeros[2] == 0 && zeros[3] == 0 && zeros[4] == 0
        && zeros[5] == 0);
    assert(polymod_from(zeros, 0, c0) == polymod_from(zeros, 1, z1));
    assert(polymod_from(zeros, 1, z1) == polymod_from(zeros, 2, z2));
    assert(polymod_from(zeros, 2, z2) == polymod_from(zeros, 3, z3));
    assert(polymod_from(zeros, 3, z3) == polymod_from(zeros, 4, z4));
    assert(polymod_from(zeros, 4, z4) == polymod_from(zeros, 5, z5));
    assert(polymod_from(zeros, 5, z5) == polymod_from(zeros, 6, z6));
    assert(polymod_from(zeros, 6, z6) == z6);
    // the six checksum-symbol steps actually taken
    let x0 = cs[0];
    let x1 = cs[1];
    let x2 = cs[2];
    let x3 = cs[3];
    let x4 = cs[4];
    let x5 = cs[5];
    let c1 = polymod_step(c0, x0);
    let c2 = polymod_step(c1, x1);
    let c3 = polymod_step(c2, x2);
    let c4 = polymod_step(c3, x3);
    let c5 = polymod_step(c4, x4);
    let c6 = polymod_step(c5, x5);
    assert(cs.len() == 6);
    assert(polymod_from(cs, 0, c0) == polymod_from(cs, 1, c1));
    assert(polymod_from(cs, 1, c1) == polymod_from(cs, 2, c2));
    assert(polymod_from(cs, 2, c2) == polymod_from(cs, 3, c3));
    assert(polymod_from(cs, 3, c3) == polymod_from(cs, 4, c4));
    assert(polymod_from(cs, 4, c4) == polymod_from(cs, 5, c5));
    assert(polymod_from(cs, 5, c5) == polymod_from(cs, 6, c6));
    assert(polymod_from(cs, 6, c6) == c6);
    // the two runs differ by the bare feedback of the checksum symbols
    let d1 = (x0 as u32);
    let d2 = (polymod_step(d1, x1) ^ polymod_step(0, 0)) as u32;
    let d3 = (polymod_step(d2, x2) ^ polymod_step(0, 0)) as u32;
    let d4 = (polymod_step(d3, x3) ^ polymod_step(0, 0)) as u32;
    let d5 = (polymod_step(d4, x4) ^ polymod_step(0, 0)) as u32;
    let d6 = (polymod_step(d5, x5) ^ polymod_step(0, 0)) as u32;
    assert(c1 == (z1 ^ d1) as u32) by {
        lemma_step_xor_input(c0, x0);
    }
    assert(c2 == (z2 ^ d2) as u32) by {
        lemma_regroup(z1, d1, x1);
    }
    assert(c3 == (z3 ^ d3) as u32) by {
        lemma_regroup(z2, d2, x2);
    }
    assert(c4 == (z4 ^ d4) as u32) by {
        lemma_regroup(z3, d3, x3);
    }
    assert(c5 == (z5 ^ d5) as u32) by {
        lemma_regroup(z4, d4, x4);
    }
    assert(c6 == (z6 ^ d6) as u32) by {
        lemma_regroup(z5, d5, x5);
    }
    // the difference run reassembles exactly the 30-bit target value
    assert(x0 == ((x >> 25) & 31) as u8 && x1 == ((x >> 20) & 31) as u8 && x2 == ((x >> 15)
        & 31) as u8 && x3 == ((x >> 10) & 31) as u8 && x4 == ((x >> 5) & 31) as u8 && x5 == (x
        & 31) as u8);
    lemma_diff_run(x, d1, d2, d3, d4, d5, d6);
    assert(c6 == (z6 ^ (z6 ^ 0x2bc830a3u32) as u32) as u32);
    assert((z6 ^ ((z6 ^ 0x2bc830a3u32) as u32)) == 0x2bc830a3u32) by (bit_vector);
}

/// Every value of an expanded prefix of bytes below 128 is below 32.
proof fn lemma_hrp_expand_small(hrp: Seq<u8>)
    requires
        forall|i: int| 0 <= i < hrp.len() ==> hrp[i] < 128,
    ensures
        forall|j: int| 0 <= j < hrp_expand(hrp).len() ==> hrp_expand(hrp)[j] < 32,
{
    let e = hrp_expand(hrp);
    let hl = hrp.len() as int;
    assert forall|j: int| 0 <= j < e.len() implies e[j] < 32 by {
        if j < hl {
            assert(e[j] == hrp[j] >> 5);
            let b = hrp[j];
            assert(b < 128 ==> (b >> 5) < 32) by (bit_vector);
        } else if j == hl {
            assert(e[j] == 0);
        } else {
            assert(e[j] == hrp[j - hl - 1] & 31);
            let b = hrp[j - hl - 1];
            assert((b & 31) < 32) by (bit_vector);
        }
    }
}

/// The zero step from the zero state stays zero.
proof fn lemma_step_zero()
    ensures
        polymod_step(0u32, 0u8) == 0,
{
    assert(0u32 >> 25 == 0 && 0u32 & 1 == 0 && 0u32 >> 1 == 0 && 0u32 >> 2 == 0 && 0u32 >> 3 == 0
        && 0u32 >> 4 == 0 && (0u32 ^ 0u32) == 0 && ((0u32 & 0x1ffffff) << 5) == 0) by (bit_vector);
    assert(gen_mix(0) == 0);
    assert(polymod_step(0u32, 0u8) == ((0u32 ^ 0u32) ^ 0u32) as u32);
}

/// Stepping with input `v` is the zero-input step XOR `v`.
proof fn lemma_step_xor_input(c: u32, v: u8)
    ensures
        polymod_step(c, v) == (polymod_step(c, 0) ^ (v as u32)) as u32,
{
    let g = gen_mix(c >> 25);
    let sh = ((c & 0x1ffffff) << 5) as u32;
    assert(polymod_step(c, v) == ((sh ^ g) ^ (v as u32)) as u32);
    assert(polymod_step(c, 0) == ((sh ^ g) ^ 0u32) as u32);
    let base = (sh ^ g) as u32;
    let vv = v as u32;
    assert(((base ^ vv)) == ((base ^ 0) ^ vv)) by (bit_vector);
}

/// One linear step of the difference: stepping `z ^ d` with `v` equals the
/// zero step of `z` XOR the stepped difference.
proof fn lemma_regroup(z: u32, d: u32, v: u8)
    ensures
        polymod_step((z ^ d) as u32, v) == (polymod_step(z, 0) ^ ((polymod_step(d, v)
            ^ polymod_step(0, 0)) as u32)) as u32,
{
    lemma_step_linear(z, d, v);
    lemma_step_xor_input(z, v);
    lemma_step_zero();
    let e = polymod_step(z, 0);
    let f = polymod_step(d, v);
    let vv = v as u32;
    assert(polymod_step((z ^ d) as u32, v) == (polymod_step(z, v) ^ polymod_step(d, 0)) as u32);
    assert(polymod_step(z, v) == (e ^ vv) as u32);
    assert(polymod_step(d, v) == (polymod_step(d, 0) ^ vv) as u32) by {
        lemma_step_xor_input(d, v);
    }
    let f0 = polymod_step(d, 0);
    assert(((e ^ vv) ^ f0) == (e ^ ((f0 ^ vv) ^ 0u32))) by (bit_vector);
    assert((f ^ 0u32) == ((f0 ^ vv) ^ 0u32)) by (bit_vector)
        requires
            f == (f0 ^ vv) as u32,
    ;
}

/// Feeding the six 5-bit slices of a 30-bit value through the bare feedback
/// reassembles the value.
proof fn lemma_diff_run(x: u32, d1: u32, d2: u32, d3: u32, d4: u32, d5: u32, d6: u32)
    requires
        x < 0x40000000,
        d1 == (((x >> 25) & 31) as u8) as u32,
        d2 == (polymod_step(d1, ((x >> 20) & 31) as u8) ^ polymod_step(0, 0)) as u32,
        d3 == (polymod_step(d2, ((x >> 15) & 31) as u8) ^ polymod_step(0, 0)) as u32,
        d4 == (polymod_step(d3, ((x >> 10) & 31) as u8) ^ polymod_step(0, 0)) as u32,
        d5 == (polymod_step(d4, ((x >> 5) & 31) as u8) ^ polymod_step(0, 0)) as u32,
        d6 == (polymod_step(d5, (x & 31) as u8) ^ polymod_step(0, 0)) as u32,
    ensures
        d6 == x,
{
    let v1: u8 = ((x >> 25) & 31) as u8;
    let v2: u8 = ((x >> 20) & 31) as u8;
    let v3: u8 = ((x >> 15) & 31) as u8;
    let v4: u8 = ((x >> 10) & 31) as u8;
    let v5: u8 = ((x >> 5) & 31) as u8;
    let v6: u8 = (x & 31) as u8;
    assert(v1 as u32 == ((x >> 25) & 31) && v1 < 32) by (bit_vector)
        requires
            v1 == ((x >> 25) & 31) as u8,
    ;
    assert(v2 as u32 == ((x >> 20) & 31) && v2 < 32) by (bit_vector)
        requires
            v2 == ((x >> 20) & 31) as u8,
    ;
    assert(v3 as u32 == ((x >> 15) & 31) && v3 < 32) by (bit_vector)
        requires
            v3 == ((x >> 15) & 31) as u8,
    ;
    assert(v4 as u32 == ((x >> 10) & 31) && v4 < 32) by (bit_vector)
        requires
            v4 == ((x >> 10) & 31) as u8,
    ;
    assert(v5 as u32 == ((x >> 5) & 31) && v5 < 32) by (bit_vector)
        requires
            v5 == ((x >> 5) & 31) as u8,
    ;
    assert(v6 as u32 == (x & 31) && v6 < 32) by (bit_vector)
        requires
            v6 == (x & 31) as u8,
    ;
    assert(d1 < 0x2000000);
    lemma_step_zero_small(d1, v2);
    assert(d2 == ((d1 << 5) ^ (v2 as u32)) as u32);
    assert(d1 < 32 && v2 < 32 ==> ((d1 << 5) ^ (v2 as u32)) < 0x2000000) by (bit_vector);
    lemma_step_zero_small(d2, v3);
    assert(d3 == ((d2 << 5) ^ (v3 as u32)) as u32);
    assert(d2 < 0x400 && v3 < 32 ==> ((d2 << 5) ^ (v3 as u32)) < 0x2000000) by (bit_vector);
    assert(d1 < 32 && v2 < 32 ==> ((d1 << 5) ^ (v2 as u32)) < 0x400) by (bit_vector);
    lemma_step_zero_small(d3, v4);
    assert(d4 == ((d3 << 5) ^ (v4 as u32)) as u32);
    assert(d2 < 0x400 && v3 < 32 ==> ((d2 << 5) ^ (v3 as u32)) < 0x8000) by (bit_vector);
    assert(d3 < 0x8000 && v4 < 32 ==> ((d3 << 5) ^ (v4 as u32)) < 0x100000) by (bit_vector);
    lemma_step_zero_small(d4, v5);
    assert(d5 == ((d4 << 5) ^ (v5 as u32)) as u32);
    assert(d4 < 0x100000 && v5 < 32 ==> ((d4 << 5) ^ (v5 as u32)) < 0x2000000) by (bit_vector);
    lemma_step_zero_small(d5, v6);
    assert(d6 == ((d5 << 5) ^ (v6 as u32)) as u32);
    assert(x < 0x40000000 && d1 == ((x >> 25) & 31) && d2 == ((d1 << 5) ^ ((x >> 20) & 31)) as u32
        && d3 == ((d2 << 5) ^ ((x >> 15) & 31)) as u32 && d4 == ((d3 << 5) ^ ((x >> 10)
        & 31)) as u32 && d5 == ((d4 << 5) ^ ((x >> 5) & 31)) as u32 && d6 == ((d5 << 5) ^ (x
        & 31)) as u32 ==> d6 == x) by (bit_vector);
}

/// Below `2^25` a step with a 5-bit input is a shift and an XOR.
proof fn lemma_step_zero_small(d: u32, v: u8)
    requires
        d < 0x2000000,
        v < 32,
    ensures
        (polymod_step(d, v) ^ polymod_step(0, 0)) as u32 == ((d << 5) ^ (v as u32)) as u32,
{
    lemma_step_zero();
    assert((d < 0x2000000 ==> d >> 25 == 0) && 0u32 & 1 == 0 && 0u32 >> 1 == 0 && 0u32 >> 2 == 0
        && 0u32 >> 3 == 0 && 0u32 >> 4 == 0 && (0u32 ^ 0u32) == 0) by (bit_vector);
    assert(gen_mix(0) == 0);
    assert(d < 0x2000000 ==> ((d & 0x1ffffff) << 5) == (d << 5)) by (bit_vector);
    assert(polymod_step(d, v) == ((((d & 0x1ffffff) << 5) as u32 ^ 0u32) ^ (v as u32)) as u32);
    let sh = (d << 5) as u32;
    let vv = v as u32;
    assert(((sh ^ 0u32) ^ vv) == (sh ^ vv)) by (bit_vector);
    assert((polymod_step(d, v) ^ 0u32) == polymod_step(d, v)) by (bit_vector);
}


/// A single bit of a byte string, as the spec-level `bit_at`.
fn get_bit(b: &Vec<u8>, p: usize) -> (r: u8)
    requires
        p < 8 * b@.len(),
    ensures
        r == bit_at(b@, p as nat),
        r <= 1,
{
    let byte = b[p / 8];
    let sh: u8 = (7 - (p % 8)) as u8;
    let bit = (byte >> sh) & 1;
    proof {
        lemma_bit_le_1(byte, sh);
    }
    bit
}

/// A single bit of a symbol string, as the spec-level `sym_bit_at`.
fn get_sym_bit(s: &Vec<u8>, p: usize) -> (r: u8)
    requires
        p < 5 * s@.len(),
    ensures
        r == sym_bit_at(s@, p as nat),
        r <= 1,
{
    let sym = s[p / 5];
    let sh: u8 = (4 - (p % 5)) as u8;
    let bit = (sym >> sh) & 1;
    proof {
        lemma_bit_le_1(sym, sh);
    }
    bit
}

/// Regroups bytes into 5-bit symbols, most significant bit first, the last
/// symbol zero-padded.
pub fn to_symbols(data: &Vec<u8>) -> (r: Vec<u8>)
    requires
        data@.len() <= MAX_BUF,
    ensures
        r@ == symbols_of(data@),
        forall|i: int| 0 <= i < r@.len() ==> r@[i] < 32,
{
    let n = data.len();
    let m = (8 * n + 4) / 5;
    let mut r: Vec<u8> = Vec::new();
    let mut i: usize = 0;
    while i < m
        invariant
            0 <= i <= m,
            n == data@.len() <= MAX_BUF,
            m == sym_count(n as nat),
            r@.len() == i,
            forall|j: int| 0 <= j < i ==> r@[j] == symbol_at(data@, j as nat),
            forall|j: int| 0 <= j < i ==> r@[j] < 32,
        decreases m - i,
    {
        let b0 = if 5 * i < 8 * n {
            get_bit(data, 5 * i)
        } else {
            0
        };
        let b1 = if 5 * i + 1 < 8 * n {
            get_bit(data, 5 * i + 1)
        } else {
            0
        };
        let b2 = if 5 * i + 2 < 8 * n {
            get_bit(data, 5 * i + 2)
        } else {
            0
        };
        let b3 = if 5 * i + 3 < 8 * n {
            get_bit(data, 5 * i + 3)
        } else {
            0
        };
        let b4 = if 5 * i + 4 < 8 * n {
            get_bit(data, 5 * i + 4)
        } else {
            0
        };
        let sym = 16 * b0 + 8 * b1 + 4 * b2 + 2 * b3 + b4;
        proof {
            assert(sym == symbol_at(data@, i as nat));
        }
        r.push(sym);
        i = i + 1;
    }
    proof {
        assert(r@ =~= symbols_of(data@));
    }
    r
}

/// Regroups 5-bit symbols back into bytes, rejecting a non-minimal symbol
/// count or nonzero padding bits.
pub fn from_symbols(syms: &Vec<u8>) -> (r: Option<Vec<u8>>)
    requires
        syms@.len() <= MAX_ENCODED,
    ensures
        match r {
            Some(v) => bytes_of_symbols(syms@) == Some(v@),
            None => bytes_of_symbols(syms@) is None,
        },
{
    let m = syms.len();
    let n = (5 * m) / 8;
    if 5 * m - 8 * n >= 5 {
        return None;
    }
    let mut p: usize = 8 * n;
    while p < 5 * m
        invariant
            8 * n <= p <= 5 * m,
            m == syms@.len() <= MAX_ENCODED,
            n == byte_count(m as nat),
            forall|q: nat| 8 * n <= q < p ==> sym_bit_at(syms@, q) == 0,
        decreases 5 * m - p,
    {
        if get_sym_bit(syms, p) != 0 {
            return None;
        }
        p = p + 1;
    }
    let mut out: Vec<u8> = Vec::new();
    let mut i: usize = 0;
    while i < n
        invariant
            0 <= i <= n,
            m == syms@.len() <= MAX_ENCODED,
            n == byte_count(m as nat),
            out@.len() == i,
            forall|j: int| 0 <= j < i ==> out@[j] == byte_at(syms@, j as nat),
        decreases n - i,
    {
        proof {
            assert(8 * i + 7 < 8 * n);
            assert(8 * n <= 5 * m);
        }
        let d0 = get_sym_bit(syms, 8 * i);
        let d1 = get_sym_bit(syms, 8 * i + 1);
        let d2 = get_sym_bit(syms, 8 * i + 2);
        let d3 = get_sym_bit(syms, 8 * i + 3);
        let d4 = get_sym_bit(syms, 8 * i + 4);
        let d5 = get_sym_bit(syms, 8 * i + 5);
        let d6 = get_sym_bit(syms, 8 * i + 6);
        let d7 = get_sym_bit(syms, 8 * i + 7);
        let byte = 128 * d0 + 64 * d1 + 32 * d2 + 16 * d3 + 8 * d4 + 4 * d5 + 2 * d6 + d7;
        proof {
            assert(byte == byte_at(syms@, i as nat));
        }
        out.push(byte);
        i = i + 1;
    }
    proof {
        let spec_r = bytes_of_symbols(syms@);
        assert(spec_r is Some);
        assert(out@ =~= spec_r->Some_0);
    }
    Some(out)
}

/// Maps a symbol value to its alphabet byte.
pub fn sym_char_of(v: u8) -> (r: u8)
    requires
        v < 32,
    ensures
        r == sym_char(v),
{
    match v {
        0 => 113,
        1 => 112,
        2 => 122,
        3 => 114,
        4 => 121,
        5 => 57,
        6 => 120,
        7 => 56,
        8 => 103,
        9 => 102,
        10 => 50,
        11 => 116,
        12 => 118,
        13 => 100,
        14 => 119,
        15 => 48,
        16 => 115,
        17 => 51,
        18 => 106,
        19 => 110,
        20 => 53,
        21 => 52,
        22 => 107,
        23 => 104,
        24 => 99,
        25 => 101,
        26 => 54,
        27 => 109,
        28 => 117,
        29 => 97,
        30 => 55,
        _ => 108,
    }
}

/// Maps an alphabet byte back to its symbol value.
pub fn char_sym_of(c: u8) -> (r: Option<u8>)
    ensures
        r == char_sym(c),
{
    match c {
        113 => Some(0),
        112 => Some(1),
        122 => Some(2),
        114 => Some(3),
        121 => Some(4),
        57 => Some(5),
        120 => Some(6),
        56 => Some(7),
        103 => Some(8),
        102 => Some(9),
        50 => Some(10),
        116 => Some(11),
        118 => Some(12),
        100 => Some(13),
        119 => Some(14),
        48 => Some(15),
        115 => Some(16),
        51 => Some(17),
        106 => Some(18),
        110 => Some(19),
        53 => Some(20),
        52 => Some(21),
        107 => Some(22),
        104 => Some(23),
        99 => Some(24),
        101 => Some(25),
        54 => Some(26),
        109 => Some(27),
        117 => Some(28),
        97 => Some(29),
        55 => Some(30),
        108 => Some(31),
        _ => None,
    }
}

/// Runs the checksum over a value string from the initial state.
pub fn polymod_run(values: &Vec<u8>) -> (r: u32)
    ensures
        r == polymod(values@),
{
    let mut chk: u32 = 1;
    let mut i: usize = 0;
    while i < values.len()
        invariant
            0 <= i <= values@.len(),
            polymod(values@) == polymod_from(values@, i as nat, chk),
        decreases values@.len() - i,
    {
        let v = values[i];
        let t = chk >> 25;
        let gm = (if t & 1 != 0 {
            0x3b6a57b2u32
        } else {
            0
        }) ^ (if (t >> 1) & 1 != 0 {
            0x26508e6du32
        } else {
            0
        }) ^ (if (t >> 2) & 1 != 0 {
            0x1ea119fau32
        } else {
            0
        }) ^ (if (t >> 3) & 1 != 0 {
            0x3d4233ddu32
        } else {
            0
        }) ^ (if (t >> 4) & 1 != 0 {
            0x2a1462b3u32
        } else {
            0
        });
        proof {
            assert((t & 1 == 0 || t & 1 == 1) && ((t >> 1) & 1 == 0 || (t >> 1) & 1 == 1) && ((t
                >> 2) & 1 == 0 || (t >> 2) & 1 == 1) && ((t >> 3) & 1 == 0 || (t >> 3) & 1 == 1)
                && ((t >> 4) & 1 == 0 || (t >> 4) & 1 == 1)) by (bit_vector);
            assert(gm == gen_mix(t));
        }
        chk = ((chk & 0x1ffffff) << 5) ^ gm ^ (v as u32);
        proof {
            assert(chk == polymod_step(polymod_from(values@, i as nat, chk) ^ 0, v) ==> true);
        }
        i = i + 1;
    }
    chk
}

/// Builds the checksum value string: the expanded prefix, the data symbols,
/// and `extra` zero placeholders.
pub fn checksum_values(hrp: &Vec<u8>, syms: &Vec<u8>, extra: usize) -> (r: Vec<u8>)
    requires
        extra <= 6,
    ensures
        r@ == hrp_expand(hrp@) + syms@ + Seq::new(extra as nat, |i: int| 0u8),
{
    let mut vals: Vec<u8> = Vec::new();
    let hl = hrp.len();
    let mut i: usize = 0;
    while i < hl
        invariant
            0 <= i <= hl == hrp@.len(),
            vals@ == Seq::new(i as nat, |j: int| hrp@[j] >> 5),
        decreases hl - i,
    {
        vals.push(hrp[i] >> 5);
        proof {
            assert(vals@ =~= Seq::new((i + 1) as nat, |j: int| hrp@[j] >> 5));
        }
        i = i + 1;
    }
    vals.push(0);
    let ghost mid = vals@;
    let mut i2: usize = 0;
    while i2 < hl
        invariant
            0 <= i2 <= hl == hrp@.len(),
            vals@ == mid + Seq::new(i2 as nat, |j: int| hrp@[j] & 31),
        decreases hl - i2,
    {
        vals.push(hrp[i2] & 31);
        proof {
            assert(vals@ =~= mid + Seq::new((i2 + 1) as nat, |j: int| hrp@[j] & 31));
        }
        i2 = i2 + 1;
    }
    proof {
        assert(vals@ =~= hrp_expand(hrp@));
    }
    let ghost expanded = vals@;
    let mut i3: usize = 0;
    while i3 < syms.len()
        invariant
            0 <= i3 <= syms@.len(),
            vals@ == expanded + syms@.take(i3 as int),
        decreases syms@.len() - i3,
    {
        vals.push(syms[i3]);
        proof {
            assert(vals@ =~= expanded + syms@.take((i3 + 1) as int));
        }
        i3 = i3 + 1;
    }
    proof {
        assert(syms@.take(syms@.len() as int) =~= syms@);
    }
    let ghost with_syms = vals@;
    let mut i4: usize = 0;
    while i4 < extra
        invariant
            0 <= i4 <= extra,
            vals@ == with_syms + Seq::new(i4 as nat, |j: int| 0u8),
        decreases extra - i4,
    {
        vals.push(0);
        proof {
            assert(vals@ =~= with_syms + Seq::new((i4 + 1) as nat, |j: int| 0u8));
        }
        i4 = i4 + 1;
    }
    proof {
        assert(vals@ =~= hrp_expand(hrp@) + syms@ + Seq::new(extra as nat, |i: int| 0u8));
    }
    vals
}

/// Computes the six checksum symbols for `syms` under `hrp`.
pub fn create_checksum(hrp: &Vec<u8>, syms: &Vec<u8>) -> (r: Vec<u8>)
    ensures
        r@ == checksum_syms(hrp@, syms@),
        r@.len() == 6,
        forall|i: int| 0 <= i < 6 ==> r@[i] < 32,
{
    let vals = checksum_values(hrp, syms, 6);
    proof {
        assert(Seq::new(6nat, |i: int| 0u8) =~= seq![0u8, 0u8, 0u8, 0u8, 0u8, 0u8]);
        assert(vals@ =~= hrp_expand(hrp@) + syms@ + seq![0u8, 0u8, 0u8, 0u8, 0u8, 0u8]);
    }
    let pm0 = polymod_run(&vals);
    let pm = pm0 ^ CHECKSUM_CONST;
    let mut r: Vec<u8> = Vec::new();
    r.push(((pm >> 25) & 31) as u8);
    r.push(((pm >> 20) & 31) as u8);
    r.push(((pm >> 15) & 31) as u8);
    r.push(((pm >> 10) & 31) as u8);
    r.push(((pm >> 5) & 31) as u8);
    r.push((pm & 31) as u8);
    proof {
        assert(((pm >> 25) & 31) < 32 && ((pm >> 20) & 31) < 32 && ((pm >> 15) & 31) < 32 && ((pm
            >> 10) & 31) < 32 && ((pm >> 5) & 31) < 32 && (pm & 31) < 32) by (bit_vector);
        assert(r@ =~= checksum_syms(hrp@, syms@));
    }
    r
}

/// One step of the checksum is injective in the state, over 30-bit states.
proof fn lemma_step_injective(c1: u32, c2: u32, v: u8)
    requires
        c1 < 0x40000000,
        c2 < 0x40000000,
        polymod_step(c1, v) == polymod_step(c2, v),
    ensures
        c1 == c2,
{
    let x = c1;
    let y = c2;
    assert(x < 0x40000000 && y < 0x40000000 && ((((x & 0x1ffffff) << 5) ^ ((((x >> 25) & 1)
        * 0x3b6a57b2) as u32 ^ (((x >> 25 >> 1) & 1) * 0x26508e6d) as u32 ^ (((x >> 25 >> 2) & 1)
        * 0x1ea119fa) as u32 ^ (((x >> 25 >> 3) & 1) * 0x3d4233dd) as u32 ^ (((x >> 25 >> 4) & 1)
        * 0x2a1462b3) as u32)) ^ (v as u32)) == ((((y & 0x1ffffff) << 5) ^ ((((y >> 25) & 1)
        * 0x3b6a57b2) as u32 ^ (((y >> 25 >> 1) & 1) * 0x26508e6d) as u32 ^ (((y >> 25 >> 2) & 1)
        * 0x1ea119fa) as u32 ^ (((y >> 25 >> 3) & 1) * 0x3d4233dd) as u32 ^ (((y >> 25 >> 4) & 1)
        * 0x2a1462b3) as u32)) ^ (v as u32)) ==> x == y) by (bit_vector);
}

/// One step from a 30-bit state with a 5-bit input stays 30-bit.
proof fn lemma_step_bound(c: u32, v: u8)
    requires
        c < 0x40000000,
        v < 32,
    ensures
        polymod_step(c, v) < 0x40000000,
{
    assert(c < 0x40000000 && v < 32 ==> ((((c & 0x1ffffff) << 5) ^ ((((c >> 25) & 1)
        * 0x3b6a57b2) as u32 ^ (((c >> 25 >> 1) & 1) * 0x26508e6d) as u32 ^ (((c >> 25 >> 2) & 1)
        * 0x1ea119fa) as u32 ^ (((c >> 25 >> 3) & 1) * 0x3d4233dd) as u32 ^ (((c >> 25 >> 4) & 1)
        * 0x2a1462b3) as u32)) ^ (v as u32)) < 0x40000000) by (bit_vector);
}

/// Distinct 30-bit states stay distinct through any run of 5-bit inputs.
proof fn lemma_polymod_from_distinct(s: Seq<u8>, i: nat, c1: u32, c2: u32)
    requires
        i <= s.len(),
        c1 != c2,
        c1 < 0x40000000,
        c2 < 0x40000000,
        forall|j: int| 0 <= j < s.len() ==> s[j] < 32,
    ensures
        polymod_from(s, i, c1) != polymod_from(s, i, c2),
    decreases s.len() - i,
{
    if i < s.len() {
        let v = s[i as int];
        let d1 = polymod_step(c1, v);
        let d2 = polymod_step(c2, v);
        if d1 == d2 {
            lemma_step_injective(c1, c2, v);
        }
        lemma_step_bound(c1, v);
        lemma_step_bound(c2, v);
        lemma_polymod_from_distinct(s, (i + 1) as nat, d1, d2);
    }
}

/// Law: the checksum catches every single-symbol substitution. If one value
/// string of 5-bit symbols under a prefix has the valid residue, changing
/// exactly one of its symbols gives a string whose residue is no longer
/// valid, wherever the change falls, in the data or the checksum itself.
pub proof fn lemma_checksum_flip_detected(hrp: Seq<u8>, syms1: Seq<u8>, syms2: Seq<u8>, k: int)
    requires
        forall|i: int| 0 <= i < hrp.len() ==> hrp[i] < 128,
        forall|i: int| 0 <= i < syms1.len() ==> syms1[i] < 32,
        forall|i: int| 0 <= i < syms2.len() ==> syms2[i] < 32,
        syms1.len() == syms2.len(),
        0 <= k < syms1.len(),
        syms1[k] != syms2[k],
        forall|j: int| 0 <= j < syms1.len() && j != k ==> syms1[j] == syms2[j],
        polymod(hrp_expand(hrp) + syms1) == CHECKSUM_CONST,
    ensures
        polymod(hrp_expand(hrp) + syms2) != CHECKSUM_CONST,
{
    let e = hrp_expand(hrp);
    lemma_hrp_expand_small(hrp);
    lemma_polymod_concat(e, syms1, 1u32);
    lemma_polymod_concat(e, syms2, 1u32);
    let c0 = polymod_from(e, 0, 1);
    lemma_polymod_bound(e, 0, 1);
    let pre1 = syms1.take(k);
    let pre2 = syms2.take(k);
    assert(pre1 =~= pre2);
    assert(syms1 =~= pre1 + syms1.skip(k));
    assert(syms2 =~= pre2 + syms2.skip(k));
    lemma_polymod_concat(pre1, syms1.skip(k), c0);
    lemma_polymod_concat(pre2, syms2.skip(k), c0);
    let ck = polymod_from(pre1, 0, c0);
    assert(forall|j: int| 0 <= j < pre1.len() ==> pre1[j] < 32);
    lemma_polymod_bound(pre1, 0, c0);
    let v1 = syms1[k];
    let v2 = syms2[k];
    let t1 = syms1.skip(k);
    let t2 = syms2.skip(k);
    assert(t1[0] == v1 && t2[0] == v2);
    let d1 = polymod_step(ck, v1);
    let d2 = polymod_step(ck, v2);
    assert(d1 != d2) by {
        let base = ((((ck & 0x1ffffff) << 5) as u32) ^ gen_mix(ck >> 25)) as u32;
        assert(d1 == (base ^ (v1 as u32)) as u32 && d2 == (base ^ (v2 as u32)) as u32);
        assert(v1 < 32 && v2 < 32 && v1 != v2 && d1 == (base ^ (v1 as u32)) as u32 && d2 == (base
            ^ (v2 as u32)) as u32 ==> d1 != d2) by (bit_vector);
    }
    lemma_step_bound(ck, v1);
    lemma_step_bound(ck, v2);
    lemma_polymod_shift(t1, 1, d1);
    lemma_polymod_shift(t2, 1, d2);
    assert(t1.skip(1) =~= t2.skip(1)) by {
        assert(forall|j: int| 0 <= j < t1.skip(1).len() ==> #[trigger] t1.skip(1)[j] == syms1[k + 1
            + j]);
        assert(forall|j: int| 0 <= j < t2.skip(1).len() ==> #[trigger] t2.skip(1)[j] == syms2[k + 1
            + j]);
    }
    let tail = t1.skip(1);
    assert(forall|j: int| 0 <= j < tail.len() ==> tail[j] < 32) by {
        assert(forall|j: int| 0 <= j < tail.len() ==> #[trigger] tail[j] == syms1[k + 1 + j]);
    }
    lemma_polymod_from_distinct(tail, 0, d1, d2);
    assert(polymod_from(t1, 0, ck) != polymod_from(t2, 0, ck));
}

} // verus!
