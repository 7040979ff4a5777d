//! The byte format in which blocks and protocol messages are stored and sent.
//!
//! Integers are fixed-width and little-endian, a byte string or a list is its
//! length as a `u64` followed by its items, an enum variant is its index as a
//! `u32`, and a struct is its fields in declaration order.
use vstd::bytes::{
    lemma_auto_spec_u32_to_from_le_bytes, lemma_auto_spec_u64_to_from_le_bytes,
    spec_u32_from_le_bytes, spec_u32_to_le_bytes, spec_u64_from_le_bytes, spec_u64_to_le_bytes,
    u32_from_le_bytes, u32_to_le_bytes, u64_from_le_bytes, u64_to_le_bytes,
};
use vstd::prelude::*;
use vstd::slice::slice_subrange;

verus! {

/// The bytes of `buf` from position `pos` on.
pub open spec fn rest_of(buf: Seq<u8>, pos: int) -> Seq<u8> {
    buf.subrange(pos, buf.len() as int)
}

/// `prefix` is a prefix of `s`.
pub open spec fn starts_with(s: Seq<u8>, prefix: Seq<u8>) -> bool {
    prefix.len() <= s.len() && s.take(prefix.len() as int) == prefix
}

/// Eight little-endian bytes.
pub open spec fn enc_u64(x: u64) -> Seq<u8> {
    spec_u64_to_le_bytes(x)
}

/// Four little-endian bytes.
pub open spec fn enc_u32(x: u32) -> Seq<u8> {
    spec_u32_to_le_bytes(x)
}

/// A byte string: its length, then its bytes.
pub open spec fn enc_bytes(b: Seq<u8>) -> Seq<u8> {
    enc_u64(b.len() as u64) + b
}

/// The encodings of the items one after another.
pub open spec fn enc_items<A>(items: Seq<A>, f: spec_fn(A) -> Seq<u8>) -> Seq<u8>
    decreases items.len(),
{
    if items.len() == 0 {
        Seq::empty()
    } else {
        f(items[0]) + enc_items(items.drop_first(), f)
    }
}

/// A list: its length, then its items.
pub open spec fn enc_list<A>(items: Seq<A>, f: spec_fn(A) -> Seq<u8>) -> Seq<u8> {
    enc_u64(items.len() as u64) + enc_items(items, f)
}

pub open spec fn parse_u64(s: Seq<u8>) -> Option<(u64, nat)> {
    if s.len() >= 8 {
        Some((spec_u64_from_le_bytes(s.take(8)), 8nat))
    } else {
        None
    }
}

pub open spec fn parse_u32(s: Seq<u8>) -> Option<(u32, nat)> {
    if s.len() >= 4 {
        Some((spec_u32_from_le_bytes(s.take(4)), 4nat))
    } else {
        None
    }
}

pub open spec fn parse_bytes(s: Seq<u8>) -> Option<(Seq<u8>, nat)> {
    match parse_u64(s) {
        None => None,
        Some((n, _)) => if s.len() - 8 >= n {
            Some((s.subrange(8, 8 + n), (8 + n) as nat))
        } else {
            None
        },
    }
}

/// Parses `count` items one after another.
pub open spec fn parse_items<A>(
    s: Seq<u8>,
    count: nat,
    p: spec_fn(Seq<u8>) -> Option<(A, nat)>,
) -> Option<(Seq<A>, nat)>
    decreases count,
{
    if count == 0 {
        Some((Seq::empty(), 0nat))
    } else {
        match p(s) {
            None => None,
            Some((a, n)) => if n <= s.len() {
                match parse_items(s.skip(n as int), (count - 1) as nat, p) {
                    None => None,
                    Some((rest, m)) => Some((seq![a] + rest, n + m)),
                }
            } else {
                None
            },
        }
    }
}

pub open spec fn parse_list<A>(s: Seq<u8>, p: spec_fn(Seq<u8>) -> Option<(A, nat)>) -> Option<
    (Seq<A>, nat),
> {
    match parse_u64(s) {
        None => None,
        Some((count, _)) => match parse_items(s.skip(8), count as nat, p) {
            None => None,
            Some((items, m)) => Some((items, 8 + m)),
        },
    }
}

/// A parser that reads back what an encoder wrote, whatever follows it.
pub open spec fn inverts<A>(
    f: spec_fn(A) -> Seq<u8>,
    p: spec_fn(Seq<u8>) -> Option<(A, nat)>,
    wf: spec_fn(A) -> bool,
) -> bool {
    forall|a: A, r: Seq<u8>| wf(a) ==> #[trigger] p(f(a) + r) == Some((a, f(a).len()))
}

/// A parser whose every result is what the encoder writes for it.
pub open spec fn sound<A>(
    f: spec_fn(A) -> Seq<u8>,
    p: spec_fn(Seq<u8>) -> Option<(A, nat)>,
    wf: spec_fn(A) -> bool,
) -> bool {
    forall|s: Seq<u8>|
        (#[trigger] p(s)) matches Some((a, n)) ==> n == f(a).len() && starts_with(s, f(a))
            && wf(a)
}

pub proof fn lemma_skip_prefix(a: Seq<u8>, b: Seq<u8>)
    ensures
        (a + b).skip(a.len() as int) == b,
        (a + b).take(a.len() as int) == a,
{
    assert((a + b).skip(a.len() as int) =~= b);
    assert((a + b).take(a.len() as int) =~= a);
}

pub proof fn lemma_u64_roundtrip(x: u64, r: Seq<u8>)
    ensures
        enc_u64(x).len() == 8,
        parse_u64(enc_u64(x) + r) == Some((x, 8nat)),
{
    lemma_auto_spec_u64_to_from_le_bytes();
    lemma_skip_prefix(enc_u64(x), r);
}

pub proof fn lemma_u64_sound(s: Seq<u8>)
    ensures
        parse_u64(s) matches Some((x, n)) ==> n == 8 && enc_u64(x).len() == 8 && s.take(8)
            == enc_u64(x) && starts_with(s, enc_u64(x)),
{
    lemma_auto_spec_u64_to_from_le_bytes();
    if s.len() >= 8 {
        let t = s.take(8);
        assert(spec_u64_to_le_bytes(spec_u64_from_le_bytes(t)) == t);
    }
}

pub proof fn lemma_u32_roundtrip(x: u32, r: Seq<u8>)
    ensures
        enc_u32(x).len() == 4,
        parse_u32(enc_u32(x) + r) == Some((x, 4nat)),
{
    lemma_auto_spec_u32_to_from_le_bytes();
    lemma_skip_prefix(enc_u32(x), r);
}

pub proof fn lemma_u32_sound(s: Seq<u8>)
    ensures
        parse_u32(s) matches Some((x, n)) ==> n == 4 && enc_u32(x).len() == 4 && s.take(4)
            == enc_u32(x) && starts_with(s, enc_u32(x)),
{
    lemma_auto_spec_u32_to_from_le_bytes();
    if s.len() >= 4 {
        let t = s.take(4);
        assert(spec_u32_to_le_bytes(spec_u32_from_le_bytes(t)) == t);
    }
}

pub proof fn lemma_bytes_roundtrip(b: Seq<u8>, r: Seq<u8>)
    requires
        b.len() <= u64::MAX,
    ensures
        parse_bytes(enc_bytes(b) + r) == Some((b, enc_bytes(b).len())),
        enc_bytes(b).len() == 8 + b.len(),
{
    let s = enc_bytes(b) + r;
    lemma_u64_roundtrip(b.len() as u64, b + r);
    assert(s =~= enc_u64(b.len() as u64) + (b + r));
    assert(s.subrange(8, 8 + b.len() as int) =~= b);
}

pub proof fn lemma_bytes_sound(s: Seq<u8>)
    ensures
        parse_bytes(s) matches Some((b, n)) ==> n == enc_bytes(b).len() && starts_with(
            s,
            enc_bytes(b),
        ) && b.len() <= u64::MAX,
{
    lemma_u64_sound(s);
    if let Some((b, n)) = parse_bytes(s) {
        let (len, _) = parse_u64(s).unwrap();
        assert(b.len() == len);
        assert(s.take(8) == enc_u64(len));
        assert(b.len() as u64 == len);
        assert(s.take(n as int) =~= s.take(8) + b);
    }
}

pub proof fn lemma_items_roundtrip<A>(
    items: Seq<A>,
    r: Seq<u8>,
    f: spec_fn(A) -> Seq<u8>,
    p: spec_fn(Seq<u8>) -> Option<(A, nat)>,
    wf: spec_fn(A) -> bool,
)
    requires
        inverts(f, p, wf),
        forall|i: int| 0 <= i < items.len() ==> wf(#[trigger] items[i]),
    ensures
        parse_items(enc_items(items, f) + r, items.len(), p) == Some(
            (items, enc_items(items, f).len()),
        ),
    decreases items.len(),
{
    if items.len() > 0 {
        let a = items[0];
        let tail = items.drop_first();
        assert forall|i: int| 0 <= i < tail.len() implies wf(#[trigger] tail[i]) by {
            assert(tail[i] == items[i + 1]);
        }
        lemma_items_roundtrip(tail, r, f, p, wf);
        let s = enc_items(items, f) + r;
        let t = enc_items(tail, f) + r;
        assert(s =~= f(a) + t);
        assert(wf(items[0]));
        assert(p(f(a) + t) == Some((a, f(a).len())));
        lemma_skip_prefix(f(a), t);
        assert(seq![a] + tail =~= items);
    }
}

pub proof fn lemma_items_sound<A>(
    s: Seq<u8>,
    count: nat,
    f: spec_fn(A) -> Seq<u8>,
    p: spec_fn(Seq<u8>) -> Option<(A, nat)>,
    wf: spec_fn(A) -> bool,
)
    requires
        sound(f, p, wf),
    ensures
        parse_items(s, count, p) matches Some((items, n)) ==> {
            &&& items.len() == count
            &&& n == enc_items(items, f).len()
            &&& starts_with(s, enc_items(items, f))
            &&& forall|i: int| 0 <= i < items.len() ==> wf(#[trigger] items[i])
        },
    decreases count,
{
    if count > 0 {
        if let Some((a, n)) = p(s) {
            if n <= s.len() {
                let t = s.skip(n as int);
                lemma_items_sound(t, (count - 1) as nat, f, p, wf);
                if let Some((rest, m)) = parse_items(t, (count - 1) as nat, p) {
                    let items = seq![a] + rest;
                    assert(items.drop_first() =~= rest);
                    assert(items[0] == a);
                    assert(s.take((n + m) as int) =~= f(a) + t.take(m as int));
                    assert forall|i: int| 0 <= i < items.len() implies wf(#[trigger] items[i]) by {
                        if i > 0 {
                            assert(items[i] == rest[i - 1]);
                        }
                    }
                }
            }
        }
    } else {
        assert(s.take(0) =~= Seq::<u8>::empty());
    }
}

/// Reading one more item after `count` items.
pub proof fn lemma_items_step<A>(s: Seq<u8>, count: nat, p: spec_fn(Seq<u8>) -> Option<(A, nat)>)
    ensures
        match parse_items(s, count, p) {
            None => parse_items(s, count + 1, p) is None,
            Some((items, n)) => n <= s.len() && parse_items(s, count + 1, p) == match p(
                s.skip(n as int),
            ) {
                None => None,
                Some((a, m)) => if m <= s.len() - n {
                    Some((items.push(a), n + m))
                } else {
                    None
                },
            },
        },
    decreases count,
{
    if count > 0 {
        if let Some((a, n)) = p(s) {
            if n <= s.len() {
                let t = s.skip(n as int);
                lemma_items_step(t, (count - 1) as nat, p);
                if let Some((rest, m)) = parse_items(t, (count - 1) as nat, p) {
                    assert(t.skip(m as int) =~= s.skip((n + m) as int));
                    if let Some((b, k)) = p(s.skip((n + m) as int)) {
                        assert(seq![a] + rest.push(b) =~= (seq![a] + rest).push(b));
                    }
                }
            }
        }
    } else {
        assert(s.skip(0) =~= s);
        if let Some((a, n)) = p(s) {
            if n <= s.len() {
                let t = s.skip(n as int);
                assert(parse_items(t, 0, p) == Some((Seq::<A>::empty(), 0nat)));
                assert(seq![a] + Seq::<A>::empty() =~= Seq::<A>::empty().push(a));
            }
        }
    }
}

/// Once reading items fails, reading more of them fails too.
pub proof fn lemma_items_fail_more<A>(
    s: Seq<u8>,
    count: nat,
    more: nat,
    p: spec_fn(Seq<u8>) -> Option<(A, nat)>,
)
    requires
        parse_items(s, count, p) is None,
        count <= more,
    ensures
        parse_items(s, more, p) is None,
    decreases more - count,
{
    if count < more {
        lemma_items_step(s, count, p);
        lemma_items_fail_more(s, count + 1, more, p);
    }
}

pub proof fn lemma_items_push<A>(items: Seq<A>, a: A, f: spec_fn(A) -> Seq<u8>)
    ensures
        enc_items(items.push(a), f) == enc_items(items, f) + f(a),
    decreases items.len(),
{
    if items.len() == 0 {
        assert(items.push(a).drop_first() =~= Seq::<A>::empty());
        assert(items.push(a)[0] == a);
        assert(enc_items(Seq::<A>::empty(), f) == Seq::<u8>::empty());
        assert(enc_items(items.push(a), f) =~= f(a));
        assert(enc_items(items, f) + f(a) =~= f(a));
    } else {
        lemma_items_push(items.drop_first(), a, f);
        assert(items.push(a).drop_first() =~= items.drop_first().push(a));
        assert(enc_items(items.push(a), f) =~= f(items[0]) + (enc_items(items.drop_first(), f)
            + f(a)));
    }
}

pub proof fn lemma_list_roundtrip<A>(
    items: Seq<A>,
    r: Seq<u8>,
    f: spec_fn(A) -> Seq<u8>,
    p: spec_fn(Seq<u8>) -> Option<(A, nat)>,
    wf: spec_fn(A) -> bool,
)
    requires
        inverts(f, p, wf),
        items.len() <= u64::MAX,
        forall|i: int| 0 <= i < items.len() ==> wf(#[trigger] items[i]),
    ensures
        parse_list(enc_list(items, f) + r, p) == Some((items, enc_list(items, f).len())),
{
    let body = enc_items(items, f) + r;
    lemma_u64_roundtrip(items.len() as u64, body);
    assert(enc_list(items, f) + r =~= enc_u64(items.len() as u64) + body);
    lemma_skip_prefix(enc_u64(items.len() as u64), body);
    lemma_items_roundtrip(items, r, f, p, wf);
}

pub proof fn lemma_list_sound<A>(
    s: Seq<u8>,
    f: spec_fn(A) -> Seq<u8>,
    p: spec_fn(Seq<u8>) -> Option<(A, nat)>,
    wf: spec_fn(A) -> bool,
)
    requires
        sound(f, p, wf),
    ensures
        parse_list(s, p) matches Some((items, n)) ==> {
            &&& n == enc_list(items, f).len()
            &&& starts_with(s, enc_list(items, f))
            &&& items.len() <= u64::MAX
            &&& forall|i: int| 0 <= i < items.len() ==> wf(#[trigger] items[i])
        },
{
    lemma_u64_sound(s);
    if let Some((count, _)) = parse_u64(s) {
        let t = s.skip(8);
        lemma_items_sound(t, count as nat, f, p, wf);
        if let Some((items, m)) = parse_items(t, count as nat, p) {
            assert(s.take(8) == enc_u64(count));
            assert(items.len() as u64 == count);
            assert(s.take(8 + m as int) =~= s.take(8) + t.take(m as int));
        }
    }
}

/// Appends the eight little-endian bytes of `x`.
pub fn write_u64(out: &mut Vec<u8>, x: u64)
    ensures
        final(out)@ == old(out)@ + enc_u64(x),
{
    let mut b = u64_to_le_bytes(x);
    out.append(&mut b);
}

/// Appends the four little-endian bytes of `x`.
pub fn write_u32(out: &mut Vec<u8>, x: u32)
    ensures
        final(out)@ == old(out)@ + enc_u32(x),
{
    let mut b = u32_to_le_bytes(x);
    out.append(&mut b);
}

/// Appends a byte string: its length, then its bytes.
pub fn write_bytes(out: &mut Vec<u8>, b: &[u8])
    ensures
        final(out)@ == old(out)@ + enc_bytes(b@),
{
    let ghost start = out@;
    write_u64(out, b.len() as u64);
    let mut i: usize = 0;
    while i < b.len()
        invariant
            i <= b@.len(),
            out@ == start + enc_u64(b@.len() as u64) + b@.take(i as int),
        decreases b@.len() - i,
    {
        out.push(b[i]);
        i = i + 1;
        assert(b@.take(i as int) =~= b@.take(i - 1).push(b@[i - 1]));
    }
    assert(b@.take(b@.len() as int) =~= b@);
}

pub fn read_u64(buf: &[u8], pos: usize) -> (res: Option<(u64, usize)>)
    requires
        pos <= buf@.len(),
    ensures
        match res {
            Some((x, p)) => p <= buf@.len() && pos <= p && parse_u64(rest_of(buf@, pos as int))
                == Some((x, (p - pos) as nat)),
            None => parse_u64(rest_of(buf@, pos as int)) is None,
        },
{
    if buf.len() - pos >= 8 {
        let x = u64_from_le_bytes(slice_subrange(buf, pos, pos + 8));
        assert(buf@.subrange(pos as int, pos + 8) =~= rest_of(buf@, pos as int).take(8));
        Some((x, pos + 8))
    } else {
        None
    }
}

pub fn read_u32(buf: &[u8], pos: usize) -> (res: Option<(u32, usize)>)
    requires
        pos <= buf@.len(),
    ensures
        match res {
            Some((x, p)) => p <= buf@.len() && pos <= p && parse_u32(rest_of(buf@, pos as int))
                == Some((x, (p - pos) as nat)),
            None => parse_u32(rest_of(buf@, pos as int)) is None,
        },
{
    if buf.len() - pos >= 4 {
        let x = u32_from_le_bytes(slice_subrange(buf, pos, pos + 4));
        assert(buf@.subrange(pos as int, pos + 4) =~= rest_of(buf@, pos as int).take(4));
        Some((x, pos + 4))
    } else {
        None
    }
}

pub fn read_bytes(buf: &[u8], pos: usize) -> (res: Option<(Vec<u8>, usize)>)
    requires
        pos <= buf@.len(),
    ensures
        match res {
            Some((b, p)) => p <= buf@.len() && pos <= p && parse_bytes(rest_of(buf@, pos as int))
                == Some((b@, (p - pos) as nat)),
            None => parse_bytes(rest_of(buf@, pos as int)) is None,
        },
{
    match read_u64(buf, pos) {
        None => None,
        Some((n, p)) => {
            if ((buf.len() - p) as u64) < n {
                None
            } else {
                let end = p + n as usize;
                let mut out: Vec<u8> = Vec::new();
                let mut i: usize = p;
                while i < end
                    invariant
                        p <= i <= end <= buf@.len(),
                        out@ == buf@.subrange(p as int, i as int),
                    decreases end - i,
                {
                    out.push(buf[i]);
                    i = i + 1;
                    assert(buf@.subrange(p as int, i as int) =~= buf@.subrange(
                        p as int,
                        i - 1,
                    ).push(buf@[i - 1]));
                }
                assert(out@ =~= rest_of(buf@, pos as int).subrange(8, 8 + n));
                Some((out, end))
            }
        },
    }
}

} // verus!
