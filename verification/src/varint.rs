//! Canonical variable-width encoding of unsigned integers.
//!
//! Small values take one byte; larger values take a one-byte tag followed by
//! 2, 4 or 8 little-endian bytes. Decoding rejects any non-minimal form, so
//! every value has exactly one encoding.

use vstd::prelude::*;

verus! {

/// The `k` low-order bytes of `v`, least significant first.
pub open spec fn le_bytes(v: u64, k: nat) -> Seq<u8>
    decreases k,
{
    if k == 0 {
        Seq::empty()
    } else {
        seq![v as u8] + le_bytes(v >> 8, (k - 1) as nat)
    }
}

/// The value of `k` little-endian bytes of `s` starting at `j`.
pub open spec fn le_val(s: Seq<u8>, j: nat, k: nat) -> int
    decreases k,
{
    if k == 0 {
        0
    } else {
        s[j as int] + 256 * le_val(s, (j + 1) as nat, (k - 1) as nat)
    }
}

/// The unique encoding of `v`.
pub open spec fn varint_bytes(v: u64) -> Seq<u8> {
    if v < 253 {
        seq![v as u8]
    } else if v < 0x10000 {
        seq![253u8] + le_bytes(v, 2)
    } else if v < 0x1_0000_0000 {
        seq![254u8] + le_bytes(v, 4)
    } else {
        seq![255u8] + le_bytes(v, 8)
    }
}

/// The length of the encoding of `v`.
pub open spec fn varint_len(v: u64) -> nat {
    if v < 253 {
        1
    } else if v < 0x10000 {
        3
    } else if v < 0x1_0000_0000 {
        5
    } else {
        9
    }
}

/// Parses one canonically encoded value at position `i` of `s`, returning the
/// value and the number of bytes consumed, or `None` for a truncated or
/// non-minimal encoding.
pub open spec fn parse_varint(s: Seq<u8>, i: nat) -> Option<(u64, nat)> {
    if i >= s.len() {
        None
    } else {
        let tag = s[i as int];
        if tag < 253 {
            Some((tag as u64, 1))
        } else if tag == 253 {
            if i + 3 <= s.len() {
                let v = le_val(s, (i + 1) as nat, 2);
                if v >= 253 {
                    Some((v as u64, 3))
                } else {
                    None
                }
            } else {
                None
            }
        } else if tag == 254 {
            if i + 5 <= s.len() {
                let v = le_val(s, (i + 1) as nat, 4);
                if v >= 0x10000 {
                    Some((v as u64, 5))
                } else {
                    None
                }
            } else {
                None
            }
        } else {
            if i + 9 <= s.len() {
                let v = le_val(s, (i + 1) as nat, 8);
                if v >= 0x1_0000_0000 {
                    Some((v as u64, 9))
                } else {
                    None
                }
            } else {
                None
            }
        }
    }
}

/// `256^k`.
pub open spec fn pow256(k: nat) -> int
    decreases k,
{
    if k == 0 {
        1
    } else {
        256 * pow256((k - 1) as nat)
    }
}

/// The values of `pow256` at the widths the encoding uses.
proof fn lemma_pow256_values()
    ensures
        pow256(0) == 1,
        pow256(1) == 256,
        pow256(2) == 0x10000,
        pow256(3) == 0x100_0000,
        pow256(4) == 0x1_0000_0000,
        pow256(5) == 0x100_0000_0000,
        pow256(6) == 0x1_0000_0000_0000,
        pow256(7) == 0x100_0000_0000_0000,
        pow256(8) == 0x1_0000_0000_0000_0000,
{
    assert(pow256(0) == 1);
    assert(pow256(1) == 256);
    assert(pow256(2) == 0x10000);
    assert(pow256(3) == 0x100_0000);
    assert(pow256(4) == 0x1_0000_0000);
    assert(pow256(5) == 0x100_0000_0000);
    assert(pow256(6) == 0x1_0000_0000_0000);
    assert(pow256(7) == 0x100_0000_0000_0000);
    assert(pow256(8) == 0x1_0000_0000_0000_0000);
}

/// An encoding of `k` low bytes has `k` bytes.
pub proof fn lemma_le_bytes_len(v: u64, k: nat)
    ensures
        le_bytes(v, k).len() == k,
    decreases k,
{
    if k > 0 {
        lemma_le_bytes_len(v >> 8, (k - 1) as nat);
    }
}

/// `pow256` is positive.
proof fn lemma_pow256_positive(k: nat)
    ensures
        pow256(k) > 0,
    decreases k,
{
    if k > 0 {
        lemma_pow256_positive((k - 1) as nat);
    }
}

/// `pow256` does not decrease.
proof fn lemma_pow256_le(a: nat, b: nat)
    requires
        a <= b,
    ensures
        pow256(a) <= pow256(b),
    decreases b,
{
    if a < b {
        lemma_pow256_le(a, (b - 1) as nat);
        lemma_pow256_positive((b - 1) as nat);
    }
}

/// `le_val` of `k` bytes is below `256^k` (stated for the widths used).
proof fn lemma_le_val_bound(s: Seq<u8>, j: nat, k: nat)
    requires
        j + k <= s.len(),
        forall|m: int| 0 <= m < s.len() ==> s[m] < 256,
    ensures
        0 <= le_val(s, j, k) < pow256(k),
    decreases k,
{
    if k > 0 {
        lemma_le_val_bound(s, (j + 1) as nat, (k - 1) as nat);
        assert(pow256(k) == 256 * pow256((k - 1) as nat));
    }
}

/// Reading back the `k` low bytes of `v` recovers `v` when `v < 256^k`.
proof fn lemma_le_bytes_val(v: u64, k: nat, s: Seq<u8>, j: nat)
    requires
        v < pow256(k),
        j + k <= s.len(),
        s.subrange(j as int, (j + k) as int) == le_bytes(v, k),
    ensures
        le_val(s, j, k) == v,
    decreases k,
{
    if k == 0 {
    } else {
        lemma_le_bytes_len(v, k);
        lemma_le_bytes_len(v >> 8, (k - 1) as nat);
        assert(le_bytes(v, k) == seq![v as u8] + le_bytes(v >> 8, (k - 1) as nat));
        assert(s[j as int] == le_bytes(v, k)[0]);
        assert(s[j as int] == v as u8);
        let rest = s.subrange((j + 1) as int, (j + k) as int);
        assert(rest =~= le_bytes(v >> 8, (k - 1) as nat)) by {
            assert(forall|m: int|
                0 <= m < k - 1 ==> rest[m] == s.subrange(j as int, (j + k) as int)[m + 1]);
        }
        lemma_pow256_positive((k - 1) as nat);
        assert((v >> 8) < pow256((k - 1) as nat)) by {
            assert(v >> 8 == v / 256) by (bit_vector);
            assert(pow256(k) == 256 * pow256((k - 1) as nat));
            assert(pow256((k - 1) as nat) > 0);
            vstd::arithmetic::div_mod::lemma_fundamental_div_mod(v as int, 256);
        }
        lemma_le_bytes_val(v >> 8, (k - 1) as nat, s, (j + 1) as nat);
        assert(v as u8 == (v % 256) as u8) by (bit_vector);
        assert(v >> 8 == v / 256) by (bit_vector);
        assert(v % 256 + 256 * (v / 256) == v) by {
            vstd::arithmetic::div_mod::lemma_fundamental_div_mod(v as int, 256);
        }
    }
}

/// The bytes read back at `j` re-serialize to the same bytes.
proof fn lemma_le_val_bytes(s: Seq<u8>, j: nat, k: nat)
    requires
        j + k <= s.len(),
        k <= 8,
    ensures
        le_val(s, j, k) < pow256(k),
        le_bytes(le_val(s, j, k) as u64, k) == s.subrange(j as int, (j + k) as int),
    decreases k,
{
    lemma_le_val_bound(s, j, k);
    if k == 0 {
        assert(le_bytes(0u64, 0) =~= s.subrange(j as int, j as int));
    } else {
        lemma_le_val_bytes(s, (j + 1) as nat, (k - 1) as nat);
        let v = le_val(s, j, k);
        let rest = le_val(s, (j + 1) as nat, (k - 1) as nat);
        assert(v == s[j as int] + 256 * rest);
        lemma_pow256_values();
        lemma_pow256_le(k, 8);
        lemma_le_bytes_len(le_val(s, (j + 1) as nat, (k - 1) as nat) as u64, (k - 1) as nat);
        let vv = v as u64;
        let b0 = s[j as int];
        let r64 = rest as u64;
        assert(rest < pow256((k - 1) as nat));
        assert(vv == b0 + 256 * r64 && b0 < 256 ==> vv as u8 == b0 && vv >> 8 == r64)
            by (bit_vector);
        assert(le_bytes(vv, k) =~= s.subrange(j as int, (j + k) as int)) by {
            assert(le_bytes(vv, k) == seq![vv as u8] + le_bytes(vv >> 8, (k - 1) as nat));
            assert(le_bytes(r64, (k - 1) as nat) == s.subrange((j + 1) as int, (j + k) as int));
        }
    }
}

/// Parsing at the start of an encoding recovers the encoded value, whatever
/// follows it.
pub proof fn lemma_parse_varint_of_encoding(s: Seq<u8>, i: nat, v: u64)
    requires
        i + varint_len(v) <= s.len(),
        s.subrange(i as int, (i + varint_len(v)) as int) == varint_bytes(v),
    ensures
        parse_varint(s, i) == Some((v, varint_len(v))),
{
    lemma_pow256_values();
    let enc = s.subrange(i as int, (i + varint_len(v)) as int);
    if v < 253 {
        assert(s[i as int] == enc[0]);
    } else if v < 0x10000 {
        lemma_le_bytes_len(v, 2);
        assert(s[i as int] == enc[0]);
        assert(s.subrange((i + 1) as int, (i + 3) as int) =~= le_bytes(v, 2)) by {
            assert(forall|m: int| 0 <= m < 2 ==> enc[m + 1] == le_bytes(v, 2)[m]);
        }
        lemma_le_bytes_val(v, 2, s, (i + 1) as nat);
    } else if v < 0x1_0000_0000 {
        lemma_le_bytes_len(v, 4);
        assert(s[i as int] == enc[0]);
        assert(s.subrange((i + 1) as int, (i + 5) as int) =~= le_bytes(v, 4)) by {
            assert(forall|m: int| 0 <= m < 4 ==> enc[m + 1] == le_bytes(v, 4)[m]);
        }
        lemma_le_bytes_val(v, 4, s, (i + 1) as nat);
    } else {
        lemma_le_bytes_len(v, 8);
        assert(s[i as int] == enc[0]);
        assert(s.subrange((i + 1) as int, (i + 9) as int) =~= le_bytes(v, 8)) by {
            assert(forall|m: int| 0 <= m < 8 ==> enc[m + 1] == le_bytes(v, 8)[m]);
        }
        lemma_le_bytes_val(v, 8, s, (i + 1) as nat);
    }
}

/// A successful parse reads back exactly the canonical encoding of its value:
/// no other byte shape is accepted.
pub proof fn lemma_parse_varint_canonical(s: Seq<u8>, i: nat)
    requires
        parse_varint(s, i) is Some,
    ensures
        ({
            let (v, c) = parse_varint(s, i)->Some_0;
            c == varint_len(v) && i + c <= s.len() && s.subrange(i as int, (i + c) as int)
                == varint_bytes(v)
        }),
{
    lemma_pow256_values();
    let tag = s[i as int];
    if tag < 253 {
        assert(s.subrange(i as int, (i + 1) as int) =~= seq![tag]);
        assert(tag as u64 as u8 == tag);
    } else if tag == 253 {
        lemma_le_val_bytes(s, (i + 1) as nat, 2);
        lemma_le_bytes_len(le_val(s, (i + 1) as nat, 2) as u64, 2);
        let v = le_val(s, (i + 1) as nat, 2);
        if v >= 253 {
            assert(s.subrange(i as int, (i + 3) as int) =~= seq![253u8] + s.subrange(
                (i + 1) as int,
                (i + 3) as int,
            ));
        }
    } else if tag == 254 {
        lemma_le_val_bytes(s, (i + 1) as nat, 4);
        lemma_le_bytes_len(le_val(s, (i + 1) as nat, 4) as u64, 4);
        let v = le_val(s, (i + 1) as nat, 4);
        if v >= 0x10000 {
            assert(s.subrange(i as int, (i + 5) as int) =~= seq![254u8] + s.subrange(
                (i + 1) as int,
                (i + 5) as int,
            ));
        }
    } else {
        lemma_le_val_bytes(s, (i + 1) as nat, 8);
        lemma_le_bytes_len(le_val(s, (i + 1) as nat, 8) as u64, 8);
        let v = le_val(s, (i + 1) as nat, 8);
        if v >= 0x1_0000_0000 {
            assert(s.subrange(i as int, (i + 9) as int) =~= seq![255u8] + s.subrange(
                (i + 1) as int,
                (i + 9) as int,
            ));
        }
    }
}

/// The encoding of `v` has `varint_len(v)` bytes.
pub proof fn lemma_varint_bytes_len(v: u64)
    ensures
        varint_bytes(v).len() == varint_len(v),
{
    if v < 253 {
    } else if v < 0x10000 {
        lemma_le_bytes_len(v, 2);
    } else if v < 0x1_0000_0000 {
        lemma_le_bytes_len(v, 4);
    } else {
        lemma_le_bytes_len(v, 8);
    }
}

/// Appends the canonical encoding of `v` to `out`.
pub fn write_varint(out: &mut Vec<u8>, v: u64)
    ensures
        final(out)@ == old(out)@ + varint_bytes(v),
{
    if v < 253 {
        out.push(v as u8);
        assert(out@ =~= old(out)@ + varint_bytes(v));
    } else if v < 0x10000 {
        out.push(253u8);
        out.push(v as u8);
        let v1 = v >> 8;
        out.push(v1 as u8);
        proof {
            assert(le_bytes(v >> 8 >> 8, 0) =~= Seq::<u8>::empty());
            assert(le_bytes(v >> 8, 1) =~= seq![(v >> 8) as u8]);
            assert(le_bytes(v, 2) =~= seq![v as u8, (v >> 8) as u8]);
            assert(out@ =~= old(out)@ + varint_bytes(v));
        }
    } else if v < 0x1_0000_0000 {
        out.push(254u8);
        out.push(v as u8);
        let v1 = v >> 8;
        out.push(v1 as u8);
        let v2 = v1 >> 8;
        out.push(v2 as u8);
        let v3 = v2 >> 8;
        out.push(v3 as u8);
        proof {
            assert(le_bytes(v >> 8 >> 8 >> 8 >> 8, 0) =~= Seq::<u8>::empty());
            assert(le_bytes(v >> 8 >> 8 >> 8, 1) =~= seq![(v >> 8 >> 8 >> 8) as u8]);
            assert(le_bytes(v >> 8 >> 8, 2) =~= seq![(v >> 8 >> 8) as u8, (v >> 8 >> 8 >> 8) as u8]);
            assert(le_bytes(v >> 8, 3) =~= seq![
                (v >> 8) as u8,
                (v >> 8 >> 8) as u8,
                (v >> 8 >> 8 >> 8) as u8,
            ]);
            assert(le_bytes(v, 4) =~= seq![
                v as u8,
                (v >> 8) as u8,
                (v >> 8 >> 8) as u8,
                (v >> 8 >> 8 >> 8) as u8,
            ]);
            assert(out@ =~= old(out)@ + varint_bytes(v));
        }
    } else {
        out.push(255u8);
        out.push(v as u8);
        let v1 = v >> 8;
        out.push(v1 as u8);
        let v2 = v1 >> 8;
        out.push(v2 as u8);
        let v3 = v2 >> 8;
        out.push(v3 as u8);
        let v4 = v3 >> 8;
        out.push(v4 as u8);
        let v5 = v4 >> 8;
        out.push(v5 as u8);
        let v6 = v5 >> 8;
        out.push(v6 as u8);
        let v7 = v6 >> 8;
        out.push(v7 as u8);
        proof {
            let s1 = v >> 8;
            let s2 = s1 >> 8;
            let s3 = s2 >> 8;
            let s4 = s3 >> 8;
            let s5 = s4 >> 8;
            let s6 = s5 >> 8;
            let s7 = s6 >> 8;
            assert(le_bytes(s7 >> 8, 0) =~= Seq::<u8>::empty());
            assert(le_bytes(s7, 1) =~= seq![s7 as u8]);
            assert(le_bytes(s6, 2) =~= seq![s6 as u8, s7 as u8]);
            assert(le_bytes(s5, 3) =~= seq![s5 as u8, s6 as u8, s7 as u8]);
            assert(le_bytes(s4, 4) =~= seq![s4 as u8, s5 as u8, s6 as u8, s7 as u8]);
            assert(le_bytes(s3, 5) =~= seq![s3 as u8, s4 as u8, s5 as u8, s6 as u8, s7 as u8]);
            assert(le_bytes(s2, 6) =~= seq![
                s2 as u8,
                s3 as u8,
                s4 as u8,
                s5 as u8,
                s6 as u8,
                s7 as u8,
            ]);
            assert(le_bytes(s1, 7) =~= seq![
                s1 as u8,
                s2 as u8,
                s3 as u8,
                s4 as u8,
                s5 as u8,
                s6 as u8,
                s7 as u8,
            ]);
            assert(le_bytes(v, 8) =~= seq![
                v as u8,
                s1 as u8,
                s2 as u8,
                s3 as u8,
                s4 as u8,
                s5 as u8,
                s6 as u8,
                s7 as u8,
            ]);
            assert(out@ =~= old(out)@ + varint_bytes(v));
        }
    }
}

/// Reads one canonically encoded value at `pos`, returning it with the
/// number of bytes consumed, or `None` where `parse_varint` has none.
pub fn read_varint(buf: &Vec<u8>, pos: usize) -> (r: Option<(u64, usize)>)
    requires
        pos <= buf@.len(),
    ensures
        match r {
            Some((v, c)) => parse_varint(buf@, pos as nat) == Some((v, c as nat)),
            None => parse_varint(buf@, pos as nat) is None,
        },
{
    if pos >= buf.len() {
        return None;
    }
    let tag = buf[pos];
    if tag < 253 {
        Some((tag as u64, 1))
    } else if tag == 253 {
        if buf.len() - pos < 3 {
            return None;
        }
        let v: u64 = buf[pos + 1] as u64 + 256 * (buf[pos + 2] as u64);
        proof {
            assert(le_val(buf@, (pos + 3) as nat, 0) == 0);
            assert(le_val(buf@, (pos + 2) as nat, 1) == buf@[pos + 2]);
            assert(le_val(buf@, (pos + 1) as nat, 2) == buf@[pos + 1] + 256 * buf@[pos + 2]);
        }
        if v < 253 {
            return None;
        }
        Some((v, 3))
    } else if tag == 254 {
        if buf.len() - pos < 5 {
            return None;
        }
        let v: u64 = buf[pos + 1] as u64 + 256 * (buf[pos + 2] as u64 + 256 * (buf[pos + 3] as u64
            + 256 * (buf[pos + 4] as u64)));
        proof {
            assert(le_val(buf@, (pos + 5) as nat, 0) == 0);
            assert(le_val(buf@, (pos + 4) as nat, 1) == buf@[pos + 4]);
            assert(le_val(buf@, (pos + 3) as nat, 2) == buf@[pos + 3] + 256 * le_val(
                buf@,
                (pos + 4) as nat,
                1,
            ));
            assert(le_val(buf@, (pos + 2) as nat, 3) == buf@[pos + 2] + 256 * le_val(
                buf@,
                (pos + 3) as nat,
                2,
            ));
            assert(le_val(buf@, (pos + 1) as nat, 4) == buf@[pos + 1] + 256 * le_val(
                buf@,
                (pos + 2) as nat,
                3,
            ));
        }
        if v < 0x10000 {
            return None;
        }
        Some((v, 5))
    } else {
        if buf.len() - pos < 9 {
            return None;
        }
        let v: u64 = buf[pos + 1] as u64 + 256 * (buf[pos + 2] as u64 + 256 * (buf[pos + 3] as u64
            + 256 * (buf[pos + 4] as u64 + 256 * (buf[pos + 5] as u64 + 256 * (buf[pos + 6] as u64
            + 256 * (buf[pos + 7] as u64 + 256 * (buf[pos + 8] as u64)))))));
        proof {
            assert(le_val(buf@, (pos + 9) as nat, 0) == 0);
            assert(le_val(buf@, (pos + 8) as nat, 1) == buf@[pos + 8]);
            assert(le_val(buf@, (pos + 7) as nat, 2) == buf@[pos + 7] + 256 * le_val(
                buf@,
                (pos + 8) as nat,
                1,
            ));
            assert(le_val(buf@, (pos + 6) as nat, 3) == buf@[pos + 6] + 256 * le_val(
                buf@,
                (pos + 7) as nat,
                2,
            ));
            assert(le_val(buf@, (pos + 5) as nat, 4) == buf@[pos + 5] + 256 * le_val(
                buf@,
                (pos + 6) as nat,
                3,
            ));
            assert(le_val(buf@, (pos + 4) as nat, 5) == buf@[pos + 4] + 256 * le_val(
                buf@,
                (pos + 5) as nat,
                4,
            ));
            assert(le_val(buf@, (pos + 3) as nat, 6) == buf@[pos + 3] + 256 * le_val(
                buf@,
                (pos + 4) as nat,
                5,
            ));
            assert(le_val(buf@, (pos + 2) as nat, 7) == buf@[pos + 2] + 256 * le_val(
                buf@,
                (pos + 3) as nat,
                6,
            ));
            assert(le_val(buf@, (pos + 1) as nat, 8) == buf@[pos + 1] + 256 * le_val(
                buf@,
                (pos + 2) as nat,
                7,
            ));
            lemma_le_val_bound(buf@, (pos + 1) as nat, 8);
            lemma_pow256_values();
        }
        if v < 0x1_0000_0000 {
            return None;
        }
        Some((v, 9))
    }
}

} // verus!
