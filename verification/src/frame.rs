//! Item framing: typed payloads length-prefixed and concatenated in type
//! code order, followed by the prefix padding block.
//!
//! Each item is its type code and its payload length as canonical
//! variable-width integers, then the payload bytes. After all items comes the
//! padding block: the prefix zero-padded to exactly [`PAD_WIDTH`] bytes,
//! which lets the decoder confirm which prefix a buffer was framed for.

use crate::varint::{
    lemma_parse_varint_of_encoding, lemma_varint_bytes_len, parse_varint, read_varint,
    varint_bytes, varint_len, write_varint,
};
use crate::zip316::CodecError;
use vstd::prelude::*;

verus! {

/// Width of the trailing padding block.
pub const PAD_WIDTH: usize = 16;

/// Largest payload the length prefix supports: the widest length encoding
/// accepted is the three-byte form.
pub const MAX_PAYLOAD: usize = 65535;

/// The views of a list of owned items.
pub open spec fn views_of(items: Seq<(u64, Vec<u8>)>) -> Seq<(u64, Seq<u8>)> {
    items.map_values(|p: (u64, Vec<u8>)| (p.0, p.1@))
}

/// The bytes of one framed item.
pub open spec fn item_bytes(tc: u64, payload: Seq<u8>) -> Seq<u8> {
    varint_bytes(tc) + varint_bytes(payload.len() as u64) + payload
}

/// The bytes of a framed item list, in the given order.
pub open spec fn items_bytes(its: Seq<(u64, Seq<u8>)>) -> Seq<u8>
    decreases its.len(),
{
    if its.len() == 0 {
        Seq::empty()
    } else {
        item_bytes(its[0].0, its[0].1) + items_bytes(its.drop_first())
    }
}

/// The prefix zero-padded to the padding block width.
pub open spec fn pad_hrp(hrp: Seq<u8>) -> Seq<u8> {
    hrp + Seq::new((PAD_WIDTH - hrp.len()) as nat, |i: int| 0u8)
}

/// `it` inserted before the first item with a larger type code.
pub open spec fn insert_item(s: Seq<(u64, Seq<u8>)>, it: (u64, Seq<u8>)) -> Seq<(u64, Seq<u8>)>
    decreases s.len(),
{
    if s.len() == 0 {
        seq![it]
    } else if it.0 < s[0].0 {
        seq![it] + s
    } else {
        seq![s[0]] + insert_item(s.drop_first(), it)
    }
}

/// The items in ascending type code order, by repeated insertion.
pub open spec fn sort_items(s: Seq<(u64, Seq<u8>)>) -> Seq<(u64, Seq<u8>)>
    decreases s.len(),
{
    if s.len() == 0 {
        Seq::empty()
    } else {
        insert_item(sort_items(s.drop_last()), s.last())
    }
}

/// Whether two items share a type code.
pub open spec fn has_dup(s: Seq<(u64, Seq<u8>)>) -> bool {
    exists|i: int, j: int| 0 <= i < j < s.len() && (#[trigger] s[i]).0 == (#[trigger] s[j]).0
}

/// Whether some payload exceeds the supported length.
pub open spec fn has_oversize(s: Seq<(u64, Seq<u8>)>) -> bool {
    exists|i: int| 0 <= i < s.len() && (#[trigger] s[i]).1.len() > MAX_PAYLOAD
}

/// What `frame` returns for each input.
pub open spec fn frame_spec(hrp: Seq<u8>, its: Seq<(u64, Seq<u8>)>) -> Result<Seq<u8>, CodecError> {
    if its.len() == 0 {
        Err(CodecError::EmptyContainer)
    } else if has_dup(its) {
        Err(CodecError::DuplicateTypeCode)
    } else if hrp.len() > PAD_WIDTH {
        Err(CodecError::HrpTooLong)
    } else if has_oversize(its) {
        Err(CodecError::PayloadTooLarge)
    } else {
        Ok(items_bytes(sort_items(its)) + pad_hrp(hrp))
    }
}

/// Framing a concatenation frames the parts in order.
pub proof fn lemma_items_bytes_concat(a: Seq<(u64, Seq<u8>)>, b: Seq<(u64, Seq<u8>)>)
    ensures
        items_bytes(a + b) == items_bytes(a) + items_bytes(b),
    decreases a.len(),
{
    if a.len() == 0 {
        assert(a + b =~= b);
        assert(Seq::empty() + items_bytes(b) =~= items_bytes(b));
    } else {
        assert((a + b)[0] == a[0]);
        assert((a + b).drop_first() =~= a.drop_first() + b);
        lemma_items_bytes_concat(a.drop_first(), b);
        assert(item_bytes(a[0].0, a[0].1) + (items_bytes(a.drop_first()) + items_bytes(b)) =~= (
        item_bytes(a[0].0, a[0].1) + items_bytes(a.drop_first())) + items_bytes(b));
    }
}

/// Inserts an owned item before the first larger type code.
fn insert_sorted(acc: Vec<(u64, Vec<u8>)>, it: (u64, Vec<u8>)) -> (r: Vec<(u64, Vec<u8>)>)
    ensures
        views_of(r@) == insert_item(views_of(acc@), (it.0, it.1@)),
    decreases acc@.len(),
{
    let ghost itv = (it.0, it.1@);
    if acc.len() == 0 {
        let mut v: Vec<(u64, Vec<u8>)> = Vec::new();
        v.push(it);
        proof {
            assert(views_of(v@) =~= seq![itv]);
        }
        v
    } else if it.0 < acc[0].0 {
        let ghost old_acc = acc@;
        let mut acc2 = acc;
        acc2.insert(0, it);
        proof {
            assert(views_of(acc2@) =~= seq![itv] + views_of(old_acc));
        }
        acc2
    } else {
        let ghost old_acc = acc@;
        let mut acc2 = acc;
        let first = acc2.remove(0);
        let ghost firstv = (first.0, first.1@);
        proof {
            assert(views_of(acc2@) =~= views_of(old_acc).drop_first());
            assert(views_of(old_acc)[0] == firstv);
        }
        let mut rest = insert_sorted(acc2, it);
        rest.insert(0, first);
        proof {
            assert(views_of(rest@) =~= seq![firstv] + insert_item(
                views_of(old_acc).drop_first(),
                itv,
            ));
            assert(insert_item(views_of(old_acc), itv) == seq![views_of(old_acc)[0]] + insert_item(
                views_of(old_acc).drop_first(),
                itv,
            ));
        }
        rest
    }
}

/// Sorts owned items by ascending type code.
fn sort_items_exec(items: Vec<(u64, Vec<u8>)>) -> (r: Vec<(u64, Vec<u8>)>)
    ensures
        views_of(r@) == sort_items(views_of(items@)),
    decreases items@.len(),
{
    if items.len() == 0 {
        proof {
            assert(views_of(items@) =~= Seq::<(u64, Seq<u8>)>::empty());
            assert(sort_items(views_of(items@)) =~= Seq::<(u64, Seq<u8>)>::empty());
        }
        items
    } else {
        let ghost orig = items@;
        let mut items2 = items;
        let last = items2.remove(items2.len() - 1);
        proof {
            assert(views_of(items2@) =~= views_of(orig).drop_last());
            assert(views_of(orig).last() == (last.0, last.1@));
        }
        let sorted = sort_items_exec(items2);
        insert_sorted(sorted, last)
    }
}

/// Whether two items share a type code.
fn find_dup(items: &Vec<(u64, Vec<u8>)>) -> (r: bool)
    ensures
        r == has_dup(views_of(items@)),
{
    let ghost v = views_of(items@);
    let n = items.len();
    let mut i: usize = 0;
    while i < n
        invariant
            0 <= i <= n == items@.len(),
            v == views_of(items@),
            forall|a: int, b: int| 0 <= a < i && a < b < n ==> (#[trigger] v[a]).0 != (
            #[trigger] v[b]).0,
        decreases n - i,
    {
        let mut j: usize = i + 1;
        while j < n
            invariant
                0 <= i < j <= n == items@.len(),
                v == views_of(items@),
                forall|a: int, b: int| 0 <= a < i && a < b < n ==> (#[trigger] v[a]).0 != (
                #[trigger] v[b]).0,
                forall|b: int| i < b < j ==> (#[trigger] v[b]).0 != v[i as int].0,
            decreases n - j,
        {
            if items[i].0 == items[j].0 {
                proof {
                    assert(v[i as int].0 == v[j as int].0);
                }
                return true;
            }
            j = j + 1;
        }
        i = i + 1;
    }
    false
}

/// Frames items under a prefix: sorted by type code, each length-prefixed,
/// then the padding block.
///
/// Fails with `EmptyContainer` for no items, `DuplicateTypeCode` for a
/// repeated type code, `HrpTooLong` for a prefix over the padding width, and
/// `PayloadTooLarge` for a payload over the supported length.
pub fn frame(hrp: &Vec<u8>, items: Vec<(u64, Vec<u8>)>) -> (r: Result<Vec<u8>, CodecError>)
    ensures
        match r {
            Ok(v) => frame_spec(hrp@, views_of(items@)) == Ok::<Seq<u8>, CodecError>(v@),
            Err(e) => frame_spec(hrp@, views_of(items@)) == Err::<Seq<u8>, CodecError>(e),
        },
{
    let ghost its = views_of(items@);
    if items.len() == 0 {
        return Err(CodecError::EmptyContainer);
    }
    if find_dup(&items) {
        return Err(CodecError::DuplicateTypeCode);
    }
    if hrp.len() > PAD_WIDTH {
        return Err(CodecError::HrpTooLong);
    }
    let n = items.len();
    let mut i: usize = 0;
    while i < n
        invariant
            0 <= i <= n == items@.len(),
            its == views_of(items@),
            its.len() > 0,
            !has_dup(its),
            hrp@.len() <= PAD_WIDTH,
            forall|j: int| 0 <= j < i ==> (#[trigger] its[j]).1.len() <= MAX_PAYLOAD,
        decreases n - i,
    {
        if items[i].1.len() > MAX_PAYLOAD {
            proof {
                assert(its[i as int].1.len() > MAX_PAYLOAD);
            }
            return Err(CodecError::PayloadTooLarge);
        }
        i = i + 1;
    }
    let sorted = sort_items_exec(items);
    let ghost sv = sort_items(its);
    let mut out: Vec<u8> = Vec::new();
    let m = sorted.len();
    let mut k: usize = 0;
    while k < m
        invariant
            0 <= k <= m == sorted@.len(),
            views_of(sorted@) == sv,
            sv == sort_items(its),
            its.len() > 0,
            !has_dup(its),
            !has_oversize(its),
            hrp@.len() <= PAD_WIDTH,
            out@ == items_bytes(sv.take(k as int)),
        decreases m - k,
    {
        let tc = sorted[k].0;
        write_varint(&mut out, tc);
        let plen = sorted[k].1.len();
        write_varint(&mut out, plen as u64);
        let ghost before_payload = out@;
        let mut b: usize = 0;
        while b < plen
            invariant
                0 <= b <= plen,
                k < sorted@.len(),
                plen == sorted@[k as int].1@.len(),
                out@ == before_payload + sorted@[k as int].1@.take(b as int),
            decreases plen - b,
        {
            out.push(sorted[k].1[b]);
            proof {
                assert(out@ =~= before_payload + sorted@[k as int].1@.take((b + 1) as int));
            }
            b = b + 1;
        }
        proof {
            let itv = sv[k as int];
            assert(sorted@[k as int].1@.take(plen as int) =~= itv.1);
            assert(out@ =~= items_bytes(sv.take(k as int)) + item_bytes(itv.0, itv.1));
            assert(sv.take((k + 1) as int) =~= sv.take(k as int) + seq![itv]);
            lemma_items_bytes_concat(sv.take(k as int), seq![itv]);
            assert(items_bytes(seq![itv]) =~= item_bytes(itv.0, itv.1)) by {
                assert(seq![itv].len() == 1);
                assert(seq![itv][0] == itv);
                assert(seq![itv].drop_first() =~= Seq::<(u64, Seq<u8>)>::empty());
                assert(items_bytes(Seq::<(u64, Seq<u8>)>::empty()) == Seq::<u8>::empty());
                assert(items_bytes(seq![itv]) == item_bytes(itv.0, itv.1) + Seq::<u8>::empty());
                assert(item_bytes(itv.0, itv.1) + Seq::<u8>::empty() =~= item_bytes(
                    itv.0,
                    itv.1,
                ));
            }
            assert(out@ =~= items_bytes(sv.take((k + 1) as int)));
        }
        k = k + 1;
    }
    proof {
        assert(sv.take(sv.len() as int) =~= sv);
    }
    let ghost framed = out@;
    let hl = hrp.len();
    let mut h: usize = 0;
    while h < hl
        invariant
            0 <= h <= hl == hrp@.len(),
            hl <= PAD_WIDTH,
            its.len() > 0,
            !has_dup(its),
            !has_oversize(its),
            framed == items_bytes(sort_items(its)),
            out@ == framed + hrp@.take(h as int),
        decreases hl - h,
    {
        out.push(hrp[h]);
        proof {
            assert(out@ =~= framed + hrp@.take((h + 1) as int));
        }
        h = h + 1;
    }
    let mut z: usize = hl;
    while z < PAD_WIDTH
        invariant
            hl <= z <= PAD_WIDTH,
            hl == hrp@.len(),
            its.len() > 0,
            !has_dup(its),
            !has_oversize(its),
            framed == items_bytes(sort_items(its)),
            out@ == framed + hrp@.take(hl as int) + Seq::new((z - hl) as nat, |i: int| 0u8),
        decreases PAD_WIDTH - z,
    {
        out.push(0);
        proof {
            assert(out@ =~= framed + hrp@.take(hl as int) + Seq::new(
                (z + 1 - hl) as nat,
                |i: int| 0u8,
            ));
        }
        z = z + 1;
    }
    proof {
        assert(hrp@.take(hl as int) =~= hrp@);
        assert(out@ =~= items_bytes(sort_items(its)) + pad_hrp(hrp@));
    }
    Ok(out)
}

/// Parses framed items from position `i` until exactly the padding block
/// remains; `None` for any truncated, non-minimal or overrunning field.
pub open spec fn parse_items(buf: Seq<u8>, i: nat) -> Option<Seq<(u64, Seq<u8>)>>
    decreases buf.len() - i,
        when i <= buf.len()
{
    if i + PAD_WIDTH == buf.len() {
        Some(Seq::empty())
    } else if i + PAD_WIDTH > buf.len() {
        None
    } else {
        match parse_varint(buf, i) {
            None => None,
            Some((tc, c1)) => match parse_varint(buf, (i + c1) as nat) {
                None => None,
                Some((plen, c2)) => {
                    if plen > MAX_PAYLOAD as u64 {
                        None
                    } else if i + c1 + c2 + plen + PAD_WIDTH <= buf.len() {
                        let payload = buf.subrange(
                            (i + c1 + c2) as int,
                            (i + c1 + c2 + plen) as int,
                        );
                        match parse_items(buf, (i + c1 + c2 + plen) as nat) {
                            None => None,
                            Some(rest) => Some(seq![(tc, payload)] + rest),
                        }
                    } else {
                        None
                    }
                },
            },
        }
    }
}

/// What `unframe` returns for each input.
pub open spec fn unframe_spec(buf: Seq<u8>, expected: Seq<u8>) -> Result<
    Seq<(u64, Seq<u8>)>,
    CodecError,
> {
    if expected.len() > PAD_WIDTH {
        Err(CodecError::HrpTooLong)
    } else {
        match parse_items(buf, 0) {
            None => Err(CodecError::MalformedContainer),
            Some(its) => {
                if buf.skip(buf.len() - PAD_WIDTH) != pad_hrp(expected) {
                    Err(CodecError::HrpMismatch)
                } else if its.len() == 0 {
                    Err(CodecError::EmptyContainer)
                } else {
                    Ok(its)
                }
            },
        }
    }
}

/// Parsing at the start of a framed item list recovers the items, whatever
/// padding block follows.
pub proof fn lemma_parse_items_of_encoding(buf: Seq<u8>, i: nat, its: Seq<(u64, Seq<u8>)>)
    requires
        i <= buf.len(),
        buf.len() - i == items_bytes(its).len() + PAD_WIDTH,
        buf.subrange(i as int, (i + items_bytes(its).len()) as int) == items_bytes(its),
        forall|j: int| 0 <= j < its.len() ==> (#[trigger] its[j]).1.len() <= MAX_PAYLOAD,
    ensures
        parse_items(buf, i) == Some(its),
    decreases its.len(),
{
    if its.len() == 0 {
        assert(items_bytes(its).len() == 0);
        assert(its =~= Seq::<(u64, Seq<u8>)>::empty());
    } else {
        let tc = its[0].0;
        let p = its[0].1;
        let plen = p.len() as u64;
        lemma_varint_bytes_len(tc);
        lemma_varint_bytes_len(plen);
        let c1 = varint_len(tc);
        let c2 = varint_len(plen);
        let enc = items_bytes(its);
        let head = item_bytes(tc, p);
        assert(enc == head + items_bytes(its.drop_first()));
        assert(head.len() == c1 + c2 + p.len());
        let sub = buf.subrange(i as int, (i + enc.len()) as int);
        assert(sub == enc);
        assert(buf.subrange(i as int, (i + c1) as int) =~= enc.take(c1 as int));
        assert(enc.take(c1 as int) =~= varint_bytes(tc));
        lemma_parse_varint_of_encoding(buf, i, tc);
        assert(buf.subrange((i + c1) as int, (i + c1 + c2) as int) =~= enc.subrange(
            c1 as int,
            (c1 + c2) as int,
        ));
        assert(enc.subrange(c1 as int, (c1 + c2) as int) =~= varint_bytes(plen));
        lemma_parse_varint_of_encoding(buf, (i + c1) as nat, plen);
        assert(parse_varint(buf, i) == Some((tc, c1)));
        assert(parse_varint(buf, (i + c1) as nat) == Some((plen, c2)));
        assert(plen <= MAX_PAYLOAD as u64);
        let pstart = (i + c1 + c2) as nat;
        assert(buf.subrange(pstart as int, (pstart + plen) as int) =~= enc.subrange(
            (c1 + c2) as int,
            (c1 + c2 + p.len()) as int,
        ));
        assert(enc.subrange((c1 + c2) as int, (c1 + c2 + p.len()) as int) =~= p);
        let inext = (pstart + plen) as nat;
        let rest = its.drop_first();
        assert(buf.subrange(inext as int, (inext + items_bytes(rest).len()) as int)
            =~= enc.subrange(head.len() as int, enc.len() as int));
        assert(enc.subrange(head.len() as int, enc.len() as int) =~= items_bytes(rest));
        assert forall|j: int| 0 <= j < rest.len() implies (#[trigger] rest[j]).1.len()
            <= MAX_PAYLOAD by {
            assert(rest[j] == its[j + 1]);
        }
        lemma_parse_items_of_encoding(buf, inext, rest);
        assert(i + PAD_WIDTH < buf.len());
        assert(parse_items(buf, i) == Some(seq![(tc, p)] + rest));
        assert(seq![(tc, p)] + rest =~= its);
    }
}

/// Reads framed items back out of a buffer and checks the padding block
/// against the expected prefix.
pub fn unframe(buf: &Vec<u8>, expected_hrp: &Vec<u8>) -> (r: Result<
    Vec<(u64, Vec<u8>)>,
    CodecError,
>)
    ensures
        match r {
            Ok(v) => unframe_spec(buf@, expected_hrp@) == Ok::<Seq<(u64, Seq<u8>)>, CodecError>(
                views_of(v@),
            ),
            Err(e) => unframe_spec(buf@, expected_hrp@) == Err::<Seq<(u64, Seq<u8>)>, CodecError>(
                e,
            ),
        },
{
    if expected_hrp.len() > PAD_WIDTH {
        return Err(CodecError::HrpTooLong);
    }
    let n = buf.len();
    let mut acc: Vec<(u64, Vec<u8>)> = Vec::new();
    let mut pos: usize = 0;
    loop
        invariant
            pos <= n == buf@.len(),
            expected_hrp@.len() <= PAD_WIDTH,
            match parse_items(buf@, pos as nat) {
                Some(rest) => parse_items(buf@, 0) == Some(views_of(acc@) + rest),
                None => parse_items(buf@, 0) is None,
            },
        ensures
            pos <= n == buf@.len(),
            expected_hrp@.len() <= PAD_WIDTH,
            n - pos == PAD_WIDTH,
            match parse_items(buf@, pos as nat) {
                Some(rest) => parse_items(buf@, 0) == Some(views_of(acc@) + rest),
                None => parse_items(buf@, 0) is None,
            },
        decreases n - pos,
    {
        if n - pos == PAD_WIDTH {
            break ;
        }
        if n - pos < PAD_WIDTH {
            return Err(CodecError::MalformedContainer);
        }
        let (tc, c1) = match read_varint(buf, pos) {
            None => {
                return Err(CodecError::MalformedContainer);
            },
            Some(x) => x,
        };
        let (plen, c2) = match read_varint(buf, pos + c1) {
            None => {
                return Err(CodecError::MalformedContainer);
            },
            Some(x) => x,
        };
        if plen > MAX_PAYLOAD as u64 {
            return Err(CodecError::MalformedContainer);
        }
        let plen_us = plen as usize;
        if !(plen_us + PAD_WIDTH <= n - pos - c1 - c2) {
            return Err(CodecError::MalformedContainer);
        }
        let start = pos + c1 + c2;
        let payload = crate::text::subvec(buf, start, start + plen_us);
        let ghost old_acc = acc@;
        acc.push((tc, payload));
        proof {
            let pv = buf@.subrange(start as int, (start + plen_us) as int);
            assert(views_of(acc@) =~= views_of(old_acc) + seq![(tc, pv)]);
            let rest_next = parse_items(buf@, (start + plen_us) as nat);
            assert(parse_items(buf@, pos as nat) == match rest_next {
                None => None::<Seq<(u64, Seq<u8>)>>,
                Some(rest) => Some(seq![(tc, pv)] + rest),
            });
            if rest_next is Some {
                assert((views_of(old_acc) + (seq![(tc, pv)] + rest_next->Some_0)) =~= (views_of(
                    acc@,
                ) + rest_next->Some_0));
            }
        }
        pos = start + plen_us;
    }
    proof {
        assert(parse_items(buf@, pos as nat) == Some(Seq::<(u64, Seq<u8>)>::empty()));
        assert(views_of(acc@) + Seq::<(u64, Seq<u8>)>::empty() =~= views_of(acc@));
        assert(parse_items(buf@, 0) == Some(views_of(acc@)));
    }
    let mut j: usize = 0;
    while j < PAD_WIDTH
        invariant
            0 <= j <= PAD_WIDTH,
            n == buf@.len(),
            n >= PAD_WIDTH,
            expected_hrp@.len() <= PAD_WIDTH,
            parse_items(buf@, 0) == Some(views_of(acc@)),
            forall|m: int|
                0 <= m < j ==> buf@[n - PAD_WIDTH + m] == #[trigger] pad_hrp(expected_hrp@)[m],
        decreases PAD_WIDTH - j,
    {
        let want: u8 = if j < expected_hrp.len() {
            expected_hrp[j]
        } else {
            0
        };
        proof {
            assert(pad_hrp(expected_hrp@)[j as int] == want);
        }
        if buf[n - PAD_WIDTH + j] != want {
            proof {
                assert(buf@.skip(n - PAD_WIDTH as int)[j as int] != pad_hrp(expected_hrp@)[
                    j as int]);
                assert(buf@.skip(n - PAD_WIDTH as int) != pad_hrp(expected_hrp@));
            }
            return Err(CodecError::HrpMismatch);
        }
        j = j + 1;
    }
    proof {
        assert(buf@.skip(n - PAD_WIDTH as int) =~= pad_hrp(expected_hrp@));
    }
    if acc.len() == 0 {
        proof {
            assert(views_of(acc@).len() == 0);
        }
        return Err(CodecError::EmptyContainer);
    }
    proof {
        assert(views_of(acc@).len() > 0);
    }
    Ok(acc)
}

} // verus!
