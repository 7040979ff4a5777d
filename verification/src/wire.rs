//! The byte format of the protocol messages: each message is its fields in order.
use crate::codec::{
    enc_bytes, enc_items, enc_list, enc_u64, inverts, lemma_bytes_roundtrip, lemma_bytes_sound,
    lemma_items_fail_more, lemma_items_push, lemma_items_step, lemma_list_roundtrip,
    lemma_list_sound, lemma_u64_roundtrip, lemma_u64_sound, parse_bytes, parse_items, parse_list,
    parse_u64, read_bytes, read_u64, rest_of, sound, starts_with, write_bytes, write_u64,
};
use crate::message::{
    Commit, CommitView, Hearbeat, HearbeatView, NewView, NewViewView, PrePrepare, PrePrepareView,
    Prepare, PrepareView, Reply, ReplyView, Request, RequestView, StateRequest, StateRequestView,
    StateResponse, StateResponseView, SyncRequest, SyncRequestView, SyncResponse,
    SyncResponseView, ViewChange, ViewChangeView, ViewRequest, ViewRequestView, ViewResponse,
    ViewResponseView, request_views,
};
use crate::store::{
    Block, BlockView, Transaction, block_encoder, block_fits, block_views, block_parser, enc_block,
    enc_transaction, fitting_block, lemma_block_codec, lemma_block_roundtrip, lemma_block_sound,
    lemma_transaction_roundtrip, lemma_transaction_sound, parse_block, parse_transaction,
    read_block, read_transaction, write_block, write_transaction,
};
use vstd::prelude::*;
use vstd::utf8::{
    decode_utf8, decode_utf8_encode_utf8, encode_utf8, encode_utf8_decode_utf8,
    encode_utf8_valid_utf8, valid_utf8,
};

verus! {

// ---------------------------------------------------------------------------
// Text
// ---------------------------------------------------------------------------
/// Text: the byte string of its UTF-8 encoding.
pub open spec fn enc_string(c: Seq<char>) -> Seq<u8> {
    enc_bytes(encode_utf8(c))
}

pub open spec fn parse_string(s: Seq<u8>) -> Option<(Seq<char>, nat)> {
    match parse_bytes(s) {
        None => None,
        Some((b, n)) => if valid_utf8(b) {
            Some((decode_utf8(b), n))
        } else {
            None
        },
    }
}

pub proof fn lemma_string_roundtrip(c: Seq<char>, r: Seq<u8>)
    requires
        encode_utf8(c).len() <= u64::MAX,
    ensures
        parse_string(enc_string(c) + r) == Some((c, enc_string(c).len())),
{
    lemma_bytes_roundtrip(encode_utf8(c), r);
    encode_utf8_valid_utf8(c);
    encode_utf8_decode_utf8(c);
}

pub proof fn lemma_string_sound(s: Seq<u8>)
    ensures
        parse_string(s) matches Some((c, n)) ==> n == enc_string(c).len() && starts_with(
            s,
            enc_string(c),
        ) && encode_utf8(c).len() <= u64::MAX,
{
    lemma_bytes_sound(s);
    if let Some((b, n)) = parse_bytes(s) {
        if valid_utf8(b) {
            decode_utf8_encode_utf8(b);
        }
    }
}

/// The text whose UTF-8 bytes are `bytes`, if they are valid UTF-8
/// (`std::str::from_utf8`, which borrows the bytes and fails exactly on
/// invalid UTF-8).
#[verifier::external_body]
fn str_from_utf8(bytes: &[u8]) -> (res: Option<&str>)
    ensures
        res is Some <==> valid_utf8(bytes@),
        res matches Some(s) ==> s@ == decode_utf8(bytes@),
{
    match std::str::from_utf8(bytes) {
        Ok(s) => Some(s),
        Err(_) => None,
    }
}

fn write_string(out: &mut Vec<u8>, s: &String)
    ensures
        final(out)@ == old(out)@ + enc_string(s@),
{
    write_bytes(out, s.as_str().as_bytes());
}

fn read_string(buf: &[u8], pos: usize) -> (res: Option<(String, usize)>)
    requires
        pos <= buf@.len(),
    ensures
        match res {
            Some((c, p)) => p <= buf@.len() && pos <= p && parse_string(rest_of(buf@, pos as int))
                == Some((c@, (p - pos) as nat)),
            None => parse_string(rest_of(buf@, pos as int)) is None,
        },
{
    match read_bytes(buf, pos) {
        None => None,
        Some((b, p)) => match str_from_utf8(b.as_slice()) {
            None => None,
            Some(s) => Some((s.to_owned(), p)),
        },
    }
}

// ---------------------------------------------------------------------------
// Lists of requests and of blocks
// ---------------------------------------------------------------------------
pub open spec fn request_encoder() -> spec_fn(RequestView) -> Seq<u8> {
    |m: RequestView| enc_request(m)
}

pub open spec fn request_parser() -> spec_fn(Seq<u8>) -> Option<(RequestView, nat)> {
    |s: Seq<u8>| parse_request(s)
}

pub open spec fn fitting_request() -> spec_fn(RequestView) -> bool {
    |m: RequestView| request_fits(m)
}

pub proof fn lemma_request_codec()
    ensures
        inverts(request_encoder(), request_parser(), fitting_request()),
        sound(request_encoder(), request_parser(), fitting_request()),
{
    assert forall|m: RequestView, r: Seq<u8>|
        fitting_request()(m) implies #[trigger] request_parser()(request_encoder()(m) + r)
        == Some((m, request_encoder()(m).len())) by {
        lemma_request_roundtrip(m, r);
    }
    assert forall|s: Seq<u8>|
        (#[trigger] request_parser()(s) matches Some((m, n)) ==> n == request_encoder()(m).len()
            && starts_with(s, request_encoder()(m)) && fitting_request()(m)) by {
        lemma_request_sound(s);
    }
}

pub(crate) fn write_requests(out: &mut Vec<u8>, v: &Vec<Request>)
    ensures
        final(out)@ == old(out)@ + enc_list(request_views(v@), request_encoder()),
{
    let ghost start = out@;
    let ghost vs = request_views(v@);
    write_u64(out, v.len() as u64);
    let mut i: usize = 0;
    while i < v.len()
        invariant
            i <= v@.len(),
            vs == request_views(v@),
            out@ == start + enc_u64(v@.len() as u64) + enc_items(
                vs.take(i as int),
                request_encoder(),
            ),
        decreases v@.len() - i,
    {
        proof {
            lemma_items_push(vs.take(i as int), vs[i as int], request_encoder());
            assert(vs.take(i as int).push(vs[i as int]) =~= vs.take(i + 1));
        }
        write_request(out, &v[i]);
        i = i + 1;
    }
    assert(vs.take(v@.len() as int) =~= vs);
}

pub(crate) fn read_requests(buf: &[u8], pos: usize) -> (res: Option<(Vec<Request>, usize)>)
    requires
        pos <= buf@.len(),
    ensures
        match res {
            Some((v, p)) => p <= buf@.len() && pos <= p && parse_list(
                rest_of(buf@, pos as int),
                request_parser(),
            ) == Some((request_views(v@), (p - pos) as nat)),
            None => parse_list(rest_of(buf@, pos as int), request_parser()) is None,
        },
{
    let ghost s = rest_of(buf@, pos as int);
    match read_u64(buf, pos) {
        None => None,
        Some((count, p0)) => {
            let ghost body = rest_of(buf@, p0 as int);
            assert(body =~= s.skip(8));
            let mut items: Vec<Request> = Vec::new();
            let mut p = p0;
            let mut i: u64 = 0;
            assert(request_views(items@) =~= Seq::<RequestView>::empty());
            while i < count
                invariant
                    p0 <= p <= buf@.len(),
                    p0 == pos + 8,
                    i <= count,
                    body == rest_of(buf@, p0 as int),
                    s == rest_of(buf@, pos as int),
                    parse_u64(s) == Some((count, 8nat)),
                    s.skip(8) == body,
                    parse_items(body, i as nat, request_parser()) == Some(
                        (request_views(items@), (p - p0) as nat),
                    ),
                decreases count - i,
            {
                proof {
                    lemma_items_step(body, i as nat, request_parser());
                    assert(body.skip(p - p0) =~= rest_of(buf@, p as int));
                }
                match read_request(buf, p) {
                    None => {
                        proof {
                            assert(request_parser()(body.skip(p - p0)) is None);
                            lemma_items_fail_more(
                                body,
                                (i + 1) as nat,
                                count as nat,
                                request_parser(),
                            );
                        }
                        return None;
                    },
                    Some((t, p2)) => {
                        let ghost before = items@;
                        items.push(t);
                        assert(request_views(items@) =~= request_views(before).push(t@));
                        p = p2;
                        i = i + 1;
                    },
                }
            }
            Some((items, p))
        },
    }
}

pub(crate) fn write_blocks(out: &mut Vec<u8>, v: &Vec<Block>)
    ensures
        final(out)@ == old(out)@ + enc_list(block_views(v@), block_encoder()),
{
    let ghost start = out@;
    let ghost vs = block_views(v@);
    write_u64(out, v.len() as u64);
    let mut i: usize = 0;
    while i < v.len()
        invariant
            i <= v@.len(),
            vs == block_views(v@),
            out@ == start + enc_u64(v@.len() as u64) + enc_items(vs.take(i as int), block_encoder()),
        decreases v@.len() - i,
    {
        proof {
            lemma_items_push(vs.take(i as int), vs[i as int], block_encoder());
            assert(vs.take(i as int).push(vs[i as int]) =~= vs.take(i + 1));
        }
        write_block(out, &v[i]);
        i = i + 1;
    }
    assert(vs.take(v@.len() as int) =~= vs);
}

pub(crate) fn read_blocks(buf: &[u8], pos: usize) -> (res: Option<(Vec<Block>, usize)>)
    requires
        pos <= buf@.len(),
    ensures
        match res {
            Some((v, p)) => p <= buf@.len() && pos <= p && parse_list(
                rest_of(buf@, pos as int),
                block_parser(),
            ) == Some((block_views(v@), (p - pos) as nat)),
            None => parse_list(rest_of(buf@, pos as int), block_parser()) is None,
        },
{
    let ghost s = rest_of(buf@, pos as int);
    match read_u64(buf, pos) {
        None => None,
        Some((count, p0)) => {
            let ghost body = rest_of(buf@, p0 as int);
            assert(body =~= s.skip(8));
            let mut items: Vec<Block> = Vec::new();
            let mut p = p0;
            let mut i: u64 = 0;
            assert(block_views(items@) =~= Seq::<BlockView>::empty());
            while i < count
                invariant
                    p0 <= p <= buf@.len(),
                    p0 == pos + 8,
                    i <= count,
                    body == rest_of(buf@, p0 as int),
                    s == rest_of(buf@, pos as int),
                    parse_u64(s) == Some((count, 8nat)),
                    s.skip(8) == body,
                    parse_items(body, i as nat, block_parser()) == Some(
                        (block_views(items@), (p - p0) as nat),
                    ),
                decreases count - i,
            {
                proof {
                    lemma_items_step(body, i as nat, block_parser());
                    assert(body.skip(p - p0) =~= rest_of(buf@, p as int));
                }
                match read_block(buf, p) {
                    None => {
                        proof {
                            assert(block_parser()(body.skip(p - p0)) is None);
                            lemma_items_fail_more(body, (i + 1) as nat, count as nat, block_parser());
                        }
                        return None;
                    },
                    Some((t, p2)) => {
                        let ghost before = items@;
                        items.push(t);
                        assert(block_views(items@) =~= block_views(before).push(t@));
                        p = p2;
                        i = i + 1;
                    },
                }
            }
            Some((items, p))
        },
    }
}

// ---------------------------------------------------------------------------
// Messages
// ---------------------------------------------------------------------------
/// `Request` in bytes: its fields in order.
pub open spec fn enc_request(m: RequestView) -> Seq<u8> {
    enc_transaction(m.transaction) + enc_u64(m.timestamp) + enc_u64(m.node_id) + enc_bytes(m.signature)
}

/// Every list of a `Request` is short enough for its length to be written.
pub open spec fn request_fits(m: RequestView) -> bool {
    m.signature.len() <= u64::MAX
}

pub open spec fn parse_request(s: Seq<u8>) -> Option<(RequestView, nat)> {
    match parse_transaction(s) {
        None => None,
        Some((transaction, n0)) =>
        match parse_u64(s.skip((n0) as int)) {
            None => None,
            Some((timestamp, n1)) =>
            match parse_u64(s.skip((n0 + n1) as int)) {
                None => None,
                Some((node_id, n2)) =>
                match parse_bytes(s.skip((n0 + n1 + n2) as int)) {
                    None => None,
                    Some((signature, n3)) =>
                        Some((RequestView { transaction, timestamp, node_id, signature }, (n0 + n1 + n2 + n3) as nat)),
                },
            },
        },
    }
}

pub proof fn lemma_request_roundtrip(m: RequestView, r: Seq<u8>)
    requires
        request_fits(m),
    ensures
        parse_request(enc_request(m) + r) == Some((m, enc_request(m).len())),
{
    let e0 = enc_transaction(m.transaction);
    let e1 = enc_u64(m.timestamp);
    let e2 = enc_u64(m.node_id);
    let e3 = enc_bytes(m.signature);
    let s = enc_request(m) + r;
    assert(parse_transaction(e0 + (e1 + e2 + e3 + r)) == Some((m.transaction, e0.len()))) by {
        lemma_transaction_roundtrip(m.transaction, e1 + e2 + e3 + r);
    }
    assert(s == e0 + (e1 + e2 + e3 + r)) by { assert(s =~= e0 + (e1 + e2 + e3 + r)); }
    assert(parse_u64(e1 + (e2 + e3 + r)) == Some((m.timestamp, e1.len()))) by {
        lemma_u64_roundtrip(m.timestamp, e2 + e3 + r);
    }
    assert(s.skip(e0.len() as int) == e1 + (e2 + e3 + r)) by { assert(s.skip(e0.len() as int) =~= e1 + (e2 + e3 + r)); }
    assert(parse_u64(e2 + (e3 + r)) == Some((m.node_id, e2.len()))) by {
        lemma_u64_roundtrip(m.node_id, e3 + r);
    }
    assert(s.skip(e0.len() + e1.len() as int) == e2 + (e3 + r)) by { assert(s.skip(e0.len() + e1.len() as int) =~= e2 + (e3 + r)); }
    assert(parse_bytes(e3 + (r)) == Some((m.signature, e3.len()))) by {
        lemma_bytes_roundtrip(m.signature, r);
    }
    assert(s.skip(e0.len() + e1.len() + e2.len() as int) == e3 + (r)) by { assert(s.skip(e0.len() + e1.len() + e2.len() as int) =~= e3 + (r)); }
}

pub proof fn lemma_request_sound(s: Seq<u8>)
    ensures
        parse_request(s) matches Some((m, n)) ==> n == enc_request(m).len() && starts_with(s, enc_request(m)) && request_fits(m),
{
    if let Some((m, n)) = parse_request(s) {
        lemma_transaction_sound(s);
        let (_, n0) = parse_transaction(s).unwrap();
        lemma_u64_sound(s.skip((n0) as int));
        let (_, n1) = parse_u64(s.skip((n0) as int)).unwrap();
        lemma_u64_sound(s.skip((n0 + n1) as int));
        let (_, n2) = parse_u64(s.skip((n0 + n1) as int)).unwrap();
        lemma_bytes_sound(s.skip((n0 + n1 + n2) as int));
        let (_, n3) = parse_bytes(s.skip((n0 + n1 + n2) as int)).unwrap();
        assert(s.take(n as int) =~= s.take(n0 as int) + s.skip((n0) as int).take(n1 as int) + s.skip((n0 + n1) as int).take(n2 as int) + s.skip((n0 + n1 + n2) as int).take(n3 as int));
    }
}

fn write_request(out: &mut Vec<u8>, m: &Request)
    ensures
        final(out)@ == old(out)@ + enc_request(m@),
{
    let ghost start = out@;
    write_transaction(out, m.transaction);
    write_u64(out, m.timestamp);
    write_u64(out, m.node_id);
    write_bytes(out, m.signature.as_slice());
    assert(out@ =~= start + enc_request(m@));
}

fn read_request(buf: &[u8], pos: usize) -> (res: Option<(Request, usize)>)
    requires
        pos <= buf@.len(),
    ensures
        match res {
            Some((m, p)) => p <= buf@.len() && pos <= p && parse_request(rest_of(buf@, pos as int)) == Some((m@, (p - pos) as nat)),
            None => parse_request(rest_of(buf@, pos as int)) is None,
        },
{
    let ghost s = rest_of(buf@, pos as int);
    let (transaction, p0) = match read_transaction(buf, pos) {
        None => return None,
        Some(r) => r,
    };
    assert(rest_of(buf@, p0 as int) =~= s.skip(p0 - pos));
    let (timestamp, p1) = match read_u64(buf, p0) {
        None => return None,
        Some(r) => r,
    };
    assert(rest_of(buf@, p1 as int) =~= s.skip(p1 - pos));
    let (node_id, p2) = match read_u64(buf, p1) {
        None => return None,
        Some(r) => r,
    };
    assert(rest_of(buf@, p2 as int) =~= s.skip(p2 - pos));
    let (signature, p3) = match read_bytes(buf, p2) {
        None => return None,
        Some(r) => r,
    };
    assert(rest_of(buf@, p3 as int) =~= s.skip(p3 - pos));
    Some((Request { transaction, timestamp, node_id, signature }, p3))
}

/// The bytes in which a `Request` is sent and signed.
pub fn encode_request(m: &Request) -> (res: Vec<u8>)
    ensures
        res@ == enc_request(m@),
{
    let mut out: Vec<u8> = Vec::new();
    write_request(&mut out, m);
    assert(out@ =~= enc_request(m@));
    out
}

/// Reads a `Request` back from the front of `bytes`; what follows it is ignored.
pub fn decode_request(bytes: &[u8]) -> (res: Option<Request>)
    ensures
        match res {
            Some(m) => starts_with(bytes@, enc_request(m@)) && forall|v: RequestView|
                request_fits(v) && starts_with(bytes@, #[trigger] enc_request(v)) ==> v == m@,
            None => forall|v: RequestView| request_fits(v) ==> !starts_with(bytes@, #[trigger] enc_request(v)),
        },
        res is None <==> parse_request(bytes@) is None,
        res matches Some(m) ==> (parse_request(bytes@) matches Some((v, _)) && v == m@),
{
    let res = read_request(bytes, 0);
    proof {
        assert(rest_of(bytes@, 0) =~= bytes@);
        lemma_request_sound(bytes@);
        assert forall|v: RequestView| request_fits(v) && starts_with(bytes@, #[trigger] enc_request(v)) implies parse_request(bytes@) == Some((v, enc_request(v).len())) by {
            let r = bytes@.skip(enc_request(v).len() as int);
            assert(bytes@ =~= enc_request(v) + r);
            lemma_request_roundtrip(v, r);
        }
    }
    match res {
        Some((m, _)) => Some(m),
        None => None,
    }
}

/// `PrePrepare` in bytes: its fields in order.
pub open spec fn enc_preprepare(m: PrePrepareView) -> Seq<u8> {
    enc_u64(m.view_number) + enc_u64(m.sequence_number) + enc_bytes(m.digest) + enc_u64(m.node_id) + enc_bytes(m.signature) + enc_list(m.requests, request_encoder()) + enc_block(m.block)
}

/// Every list of a `PrePrepare` is short enough for its length to be written.
pub open spec fn preprepare_fits(m: PrePrepareView) -> bool {
    m.digest.len() <= u64::MAX && m.signature.len() <= u64::MAX && (m.requests.len() <= u64::MAX && forall|i: int| 0 <= i < m.requests.len() ==> request_fits(#[trigger] m.requests[i])) && block_fits(m.block)
}

pub open spec fn parse_preprepare(s: Seq<u8>) -> Option<(PrePrepareView, nat)> {
    match parse_u64(s) {
        None => None,
        Some((view_number, n0)) =>
        match parse_u64(s.skip((n0) as int)) {
            None => None,
            Some((sequence_number, n1)) =>
            match parse_bytes(s.skip((n0 + n1) as int)) {
                None => None,
                Some((digest, n2)) =>
                match parse_u64(s.skip((n0 + n1 + n2) as int)) {
                    None => None,
                    Some((node_id, n3)) =>
                    match parse_bytes(s.skip((n0 + n1 + n2 + n3) as int)) {
                        None => None,
                        Some((signature, n4)) =>
                        match parse_list(s.skip((n0 + n1 + n2 + n3 + n4) as int), request_parser()) {
                            None => None,
                            Some((requests, n5)) =>
                            match parse_block(s.skip((n0 + n1 + n2 + n3 + n4 + n5) as int)) {
                                None => None,
                                Some((block, n6)) =>
                                    Some((PrePrepareView { view_number, sequence_number, digest, node_id, signature, requests, block }, (n0 + n1 + n2 + n3 + n4 + n5 + n6) as nat)),
                            },
                        },
                    },
                },
            },
        },
    }
}

#[verifier::spinoff_prover]
#[verifier::rlimit(100)]
pub proof fn lemma_preprepare_roundtrip(m: PrePrepareView, r: Seq<u8>)
    requires
        preprepare_fits(m),
    ensures
        parse_preprepare(enc_preprepare(m) + r) == Some((m, enc_preprepare(m).len())),
{
    let e0 = enc_u64(m.view_number);
    let e1 = enc_u64(m.sequence_number);
    let e2 = enc_bytes(m.digest);
    let e3 = enc_u64(m.node_id);
    let e4 = enc_bytes(m.signature);
    let e5 = enc_list(m.requests, request_encoder());
    let e6 = enc_block(m.block);
    let s = enc_preprepare(m) + r;
    assert(parse_u64(e0 + (e1 + e2 + e3 + e4 + e5 + e6 + r)) == Some((m.view_number, e0.len()))) by {
        lemma_u64_roundtrip(m.view_number, e1 + e2 + e3 + e4 + e5 + e6 + r);
    }
    assert(s == e0 + (e1 + e2 + e3 + e4 + e5 + e6 + r)) by { assert(s =~= e0 + (e1 + e2 + e3 + e4 + e5 + e6 + r)); }
    assert(parse_u64(e1 + (e2 + e3 + e4 + e5 + e6 + r)) == Some((m.sequence_number, e1.len()))) by {
        lemma_u64_roundtrip(m.sequence_number, e2 + e3 + e4 + e5 + e6 + r);
    }
    assert(s.skip(e0.len() as int) == e1 + (e2 + e3 + e4 + e5 + e6 + r)) by { assert(s.skip(e0.len() as int) =~= e1 + (e2 + e3 + e4 + e5 + e6 + r)); }
    assert(parse_bytes(e2 + (e3 + e4 + e5 + e6 + r)) == Some((m.digest, e2.len()))) by {
        lemma_bytes_roundtrip(m.digest, e3 + e4 + e5 + e6 + r);
    }
    assert(s.skip(e0.len() + e1.len() as int) == e2 + (e3 + e4 + e5 + e6 + r)) by { assert(s.skip(e0.len() + e1.len() as int) =~= e2 + (e3 + e4 + e5 + e6 + r)); }
    assert(parse_u64(e3 + (e4 + e5 + e6 + r)) == Some((m.node_id, e3.len()))) by {
        lemma_u64_roundtrip(m.node_id, e4 + e5 + e6 + r);
    }
    assert(s.skip(e0.len() + e1.len() + e2.len() as int) == e3 + (e4 + e5 + e6 + r)) by { assert(s.skip(e0.len() + e1.len() + e2.len() as int) =~= e3 + (e4 + e5 + e6 + r)); }
    assert(parse_bytes(e4 + (e5 + e6 + r)) == Some((m.signature, e4.len()))) by {
        lemma_bytes_roundtrip(m.signature, e5 + e6 + r);
    }
    assert(s.skip(e0.len() + e1.len() + e2.len() + e3.len() as int) == e4 + (e5 + e6 + r)) by { assert(s.skip(e0.len() + e1.len() + e2.len() + e3.len() as int) =~= e4 + (e5 + e6 + r)); }
    assert(parse_list(e5 + (e6 + r), request_parser()) == Some((m.requests, e5.len()))) by {
        lemma_request_codec();
        lemma_list_roundtrip(m.requests, e6 + r, request_encoder(), request_parser(), fitting_request());
    }
    assert(s.skip(e0.len() + e1.len() + e2.len() + e3.len() + e4.len() as int) == e5 + (e6 + r)) by { assert(s.skip(e0.len() + e1.len() + e2.len() + e3.len() + e4.len() as int) =~= e5 + (e6 + r)); }
    assert(parse_block(e6 + (r)) == Some((m.block, e6.len()))) by {
        lemma_block_roundtrip(m.block, r);
    }
    assert(s.skip(e0.len() + e1.len() + e2.len() + e3.len() + e4.len() + e5.len() as int) == e6 + (r)) by { assert(s.skip(e0.len() + e1.len() + e2.len() + e3.len() + e4.len() + e5.len() as int) =~= e6 + (r)); }
}

pub proof fn lemma_preprepare_sound(s: Seq<u8>)
    ensures
        parse_preprepare(s) matches Some((m, n)) ==> n == enc_preprepare(m).len() && starts_with(s, enc_preprepare(m)) && preprepare_fits(m),
{
    if let Some((m, n)) = parse_preprepare(s) {
        lemma_u64_sound(s);
        let (_, n0) = parse_u64(s).unwrap();
        lemma_u64_sound(s.skip((n0) as int));
        let (_, n1) = parse_u64(s.skip((n0) as int)).unwrap();
        lemma_bytes_sound(s.skip((n0 + n1) as int));
        let (_, n2) = parse_bytes(s.skip((n0 + n1) as int)).unwrap();
        lemma_u64_sound(s.skip((n0 + n1 + n2) as int));
        let (_, n3) = parse_u64(s.skip((n0 + n1 + n2) as int)).unwrap();
        lemma_bytes_sound(s.skip((n0 + n1 + n2 + n3) as int));
        let (_, n4) = parse_bytes(s.skip((n0 + n1 + n2 + n3) as int)).unwrap();
        lemma_request_codec();
        lemma_list_sound(s.skip((n0 + n1 + n2 + n3 + n4) as int), request_encoder(), request_parser(), fitting_request());
        let (_, n5) = parse_list(s.skip((n0 + n1 + n2 + n3 + n4) as int), request_parser()).unwrap();
        lemma_block_sound(s.skip((n0 + n1 + n2 + n3 + n4 + n5) as int));
        let (_, n6) = parse_block(s.skip((n0 + n1 + n2 + n3 + n4 + n5) as int)).unwrap();
        assert(s.take(n as int) =~= s.take(n0 as int) + s.skip((n0) as int).take(n1 as int) + s.skip((n0 + n1) as int).take(n2 as int) + s.skip((n0 + n1 + n2) as int).take(n3 as int) + s.skip((n0 + n1 + n2 + n3) as int).take(n4 as int) + s.skip((n0 + n1 + n2 + n3 + n4) as int).take(n5 as int) + s.skip((n0 + n1 + n2 + n3 + n4 + n5) as int).take(n6 as int));
    }
}

fn write_preprepare(out: &mut Vec<u8>, m: &PrePrepare)
    ensures
        final(out)@ == old(out)@ + enc_preprepare(m@),
{
    let ghost start = out@;
    write_u64(out, m.view_number);
    write_u64(out, m.sequence_number);
    write_bytes(out, m.digest.as_slice());
    write_u64(out, m.node_id);
    write_bytes(out, m.signature.as_slice());
    write_requests(out, &m.requests);
    write_block(out, &m.block);
    assert(out@ =~= start + enc_preprepare(m@));
}

fn read_preprepare(buf: &[u8], pos: usize) -> (res: Option<(PrePrepare, usize)>)
    requires
        pos <= buf@.len(),
    ensures
        match res {
            Some((m, p)) => p <= buf@.len() && pos <= p && parse_preprepare(rest_of(buf@, pos as int)) == Some((m@, (p - pos) as nat)),
            None => parse_preprepare(rest_of(buf@, pos as int)) is None,
        },
{
    let ghost s = rest_of(buf@, pos as int);
    let (view_number, p0) = match read_u64(buf, pos) {
        None => return None,
        Some(r) => r,
    };
    assert(rest_of(buf@, p0 as int) =~= s.skip(p0 - pos));
    let (sequence_number, p1) = match read_u64(buf, p0) {
        None => return None,
        Some(r) => r,
    };
    assert(rest_of(buf@, p1 as int) =~= s.skip(p1 - pos));
    let (digest, p2) = match read_bytes(buf, p1) {
        None => return None,
        Some(r) => r,
    };
    assert(rest_of(buf@, p2 as int) =~= s.skip(p2 - pos));
    let (node_id, p3) = match read_u64(buf, p2) {
        None => return None,
        Some(r) => r,
    };
    assert(rest_of(buf@, p3 as int) =~= s.skip(p3 - pos));
    let (signature, p4) = match read_bytes(buf, p3) {
        None => return None,
        Some(r) => r,
    };
    assert(rest_of(buf@, p4 as int) =~= s.skip(p4 - pos));
    let (requests, p5) = match read_requests(buf, p4) {
        None => return None,
        Some(r) => r,
    };
    assert(rest_of(buf@, p5 as int) =~= s.skip(p5 - pos));
    let (block, p6) = match read_block(buf, p5) {
        None => return None,
        Some(r) => r,
    };
    assert(rest_of(buf@, p6 as int) =~= s.skip(p6 - pos));
    Some((PrePrepare { view_number, sequence_number, digest, node_id, signature, requests, block }, p6))
}

/// The bytes in which a `PrePrepare` is sent and signed.
pub fn encode_preprepare(m: &PrePrepare) -> (res: Vec<u8>)
    ensures
        res@ == enc_preprepare(m@),
{
    let mut out: Vec<u8> = Vec::new();
    write_preprepare(&mut out, m);
    assert(out@ =~= enc_preprepare(m@));
    out
}

/// Reads a `PrePrepare` back from the front of `bytes`; what follows it is ignored.
pub fn decode_preprepare(bytes: &[u8]) -> (res: Option<PrePrepare>)
    ensures
        match res {
            Some(m) => starts_with(bytes@, enc_preprepare(m@)) && forall|v: PrePrepareView|
                preprepare_fits(v) && starts_with(bytes@, #[trigger] enc_preprepare(v)) ==> v == m@,
            None => forall|v: PrePrepareView| preprepare_fits(v) ==> !starts_with(bytes@, #[trigger] enc_preprepare(v)),
        },
        res is None <==> parse_preprepare(bytes@) is None,
        res matches Some(m) ==> (parse_preprepare(bytes@) matches Some((v, _)) && v == m@),
{
    let res = read_preprepare(bytes, 0);
    proof {
        assert(rest_of(bytes@, 0) =~= bytes@);
        lemma_preprepare_sound(bytes@);
        assert forall|v: PrePrepareView| preprepare_fits(v) && starts_with(bytes@, #[trigger] enc_preprepare(v)) implies parse_preprepare(bytes@) == Some((v, enc_preprepare(v).len())) by {
            let r = bytes@.skip(enc_preprepare(v).len() as int);
            assert(bytes@ =~= enc_preprepare(v) + r);
            lemma_preprepare_roundtrip(v, r);
        }
    }
    match res {
        Some((m, _)) => Some(m),
        None => None,
    }
}

/// `Prepare` in bytes: its fields in order.
pub open spec fn enc_prepare(m: PrepareView) -> Seq<u8> {
    enc_u64(m.view_number) + enc_u64(m.sequence_number) + enc_bytes(m.digest) + enc_u64(m.node_id) + enc_bytes(m.signature)
}

/// Every list of a `Prepare` is short enough for its length to be written.
pub open spec fn prepare_fits(m: PrepareView) -> bool {
    m.digest.len() <= u64::MAX && m.signature.len() <= u64::MAX
}

pub open spec fn parse_prepare(s: Seq<u8>) -> Option<(PrepareView, nat)> {
    match parse_u64(s) {
        None => None,
        Some((view_number, n0)) =>
        match parse_u64(s.skip((n0) as int)) {
            None => None,
            Some((sequence_number, n1)) =>
            match parse_bytes(s.skip((n0 + n1) as int)) {
                None => None,
                Some((digest, n2)) =>
                match parse_u64(s.skip((n0 + n1 + n2) as int)) {
                    None => None,
                    Some((node_id, n3)) =>
                    match parse_bytes(s.skip((n0 + n1 + n2 + n3) as int)) {
                        None => None,
                        Some((signature, n4)) =>
                            Some((PrepareView { view_number, sequence_number, digest, node_id, signature }, (n0 + n1 + n2 + n3 + n4) as nat)),
                    },
                },
            },
        },
    }
}

pub proof fn lemma_prepare_roundtrip(m: PrepareView, r: Seq<u8>)
    requires
        prepare_fits(m),
    ensures
        parse_prepare(enc_prepare(m) + r) == Some((m, enc_prepare(m).len())),
{
    let e0 = enc_u64(m.view_number);
    let e1 = enc_u64(m.sequence_number);
    let e2 = enc_bytes(m.digest);
    let e3 = enc_u64(m.node_id);
    let e4 = enc_bytes(m.signature);
    let s = enc_prepare(m) + r;
    assert(parse_u64(e0 + (e1 + e2 + e3 + e4 + r)) == Some((m.view_number, e0.len()))) by {
        lemma_u64_roundtrip(m.view_number, e1 + e2 + e3 + e4 + r);
    }
    assert(s == e0 + (e1 + e2 + e3 + e4 + r)) by { assert(s =~= e0 + (e1 + e2 + e3 + e4 + r)); }
    assert(parse_u64(e1 + (e2 + e3 + e4 + r)) == Some((m.sequence_number, e1.len()))) by {
        lemma_u64_roundtrip(m.sequence_number, e2 + e3 + e4 + r);
    }
    assert(s.skip(e0.len() as int) == e1 + (e2 + e3 + e4 + r)) by { assert(s.skip(e0.len() as int) =~= e1 + (e2 + e3 + e4 + r)); }
    assert(parse_bytes(e2 + (e3 + e4 + r)) == Some((m.digest, e2.len()))) by {
        lemma_bytes_roundtrip(m.digest, e3 + e4 + r);
    }
    assert(s.skip(e0.len() + e1.len() as int) == e2 + (e3 + e4 + r)) by { assert(s.skip(e0.len() + e1.len() as int) =~= e2 + (e3 + e4 + r)); }
    assert(parse_u64(e3 + (e4 + r)) == Some((m.node_id, e3.len()))) by {
        lemma_u64_roundtrip(m.node_id, e4 + r);
    }
    assert(s.skip(e0.len() + e1.len() + e2.len() as int) == e3 + (e4 + r)) by { assert(s.skip(e0.len() + e1.len() + e2.len() as int) =~= e3 + (e4 + r)); }
    assert(parse_bytes(e4 + (r)) == Some((m.signature, e4.len()))) by {
        lemma_bytes_roundtrip(m.signature, r);
    }
    assert(s.skip(e0.len() + e1.len() + e2.len() + e3.len() as int) == e4 + (r)) by { assert(s.skip(e0.len() + e1.len() + e2.len() + e3.len() as int) =~= e4 + (r)); }
}

pub proof fn lemma_prepare_sound(s: Seq<u8>)
    ensures
        parse_prepare(s) matches Some((m, n)) ==> n == enc_prepare(m).len() && starts_with(s, enc_prepare(m)) && prepare_fits(m),
{
    if let Some((m, n)) = parse_prepare(s) {
        lemma_u64_sound(s);
        let (_, n0) = parse_u64(s).unwrap();
        lemma_u64_sound(s.skip((n0) as int));
        let (_, n1) = parse_u64(s.skip((n0) as int)).unwrap();
        lemma_bytes_sound(s.skip((n0 + n1) as int));
        let (_, n2) = parse_bytes(s.skip((n0 + n1) as int)).unwrap();
        lemma_u64_sound(s.skip((n0 + n1 + n2) as int));
        let (_, n3) = parse_u64(s.skip((n0 + n1 + n2) as int)).unwrap();
        lemma_bytes_sound(s.skip((n0 + n1 + n2 + n3) as int));
        let (_, n4) = parse_bytes(s.skip((n0 + n1 + n2 + n3) as int)).unwrap();
        assert(s.take(n as int) =~= s.take(n0 as int) + s.skip((n0) as int).take(n1 as int) + s.skip((n0 + n1) as int).take(n2 as int) + s.skip((n0 + n1 + n2) as int).take(n3 as int) + s.skip((n0 + n1 + n2 + n3) as int).take(n4 as int));
    }
}

fn write_prepare(out: &mut Vec<u8>, m: &Prepare)
    ensures
        final(out)@ == old(out)@ + enc_prepare(m@),
{
    let ghost start = out@;
    write_u64(out, m.view_number);
    write_u64(out, m.sequence_number);
    write_bytes(out, m.digest.as_slice());
    write_u64(out, m.node_id);
    write_bytes(out, m.signature.as_slice());
    assert(out@ =~= start + enc_prepare(m@));
}

fn read_prepare(buf: &[u8], pos: usize) -> (res: Option<(Prepare, usize)>)
    requires
        pos <= buf@.len(),
    ensures
        match res {
            Some((m, p)) => p <= buf@.len() && pos <= p && parse_prepare(rest_of(buf@, pos as int)) == Some((m@, (p - pos) as nat)),
            None => parse_prepare(rest_of(buf@, pos as int)) is None,
        },
{
    let ghost s = rest_of(buf@, pos as int);
    let (view_number, p0) = match read_u64(buf, pos) {
        None => return None,
        Some(r) => r,
    };
    assert(rest_of(buf@, p0 as int) =~= s.skip(p0 - pos));
    let (sequence_number, p1) = match read_u64(buf, p0) {
        None => return None,
        Some(r) => r,
    };
    assert(rest_of(buf@, p1 as int) =~= s.skip(p1 - pos));
    let (digest, p2) = match read_bytes(buf, p1) {
        None => return None,
        Some(r) => r,
    };
    assert(rest_of(buf@, p2 as int) =~= s.skip(p2 - pos));
    let (node_id, p3) = match read_u64(buf, p2) {
        None => return None,
        Some(r) => r,
    };
    assert(rest_of(buf@, p3 as int) =~= s.skip(p3 - pos));
    let (signature, p4) = match read_bytes(buf, p3) {
        None => return None,
        Some(r) => r,
    };
    assert(rest_of(buf@, p4 as int) =~= s.skip(p4 - pos));
    Some((Prepare { view_number, sequence_number, digest, node_id, signature }, p4))
}

/// The bytes in which a `Prepare` is sent and signed.
pub fn encode_prepare(m: &Prepare) -> (res: Vec<u8>)
    ensures
        res@ == enc_prepare(m@),
{
    let mut out: Vec<u8> = Vec::new();
    write_prepare(&mut out, m);
    assert(out@ =~= enc_prepare(m@));
    out
}

/// Reads a `Prepare` back from the front of `bytes`; what follows it is ignored.
pub fn decode_prepare(bytes: &[u8]) -> (res: Option<Prepare>)
    ensures
        match res {
            Some(m) => starts_with(bytes@, enc_prepare(m@)) && forall|v: PrepareView|
                prepare_fits(v) && starts_with(bytes@, #[trigger] enc_prepare(v)) ==> v == m@,
            None => forall|v: PrepareView| prepare_fits(v) ==> !starts_with(bytes@, #[trigger] enc_prepare(v)),
        },
        res is None <==> parse_prepare(bytes@) is None,
        res matches Some(m) ==> (parse_prepare(bytes@) matches Some((v, _)) && v == m@),
{
    let res = read_prepare(bytes, 0);
    proof {
        assert(rest_of(bytes@, 0) =~= bytes@);
        lemma_prepare_sound(bytes@);
        assert forall|v: PrepareView| prepare_fits(v) && starts_with(bytes@, #[trigger] enc_prepare(v)) implies parse_prepare(bytes@) == Some((v, enc_prepare(v).len())) by {
            let r = bytes@.skip(enc_prepare(v).len() as int);
            assert(bytes@ =~= enc_prepare(v) + r);
            lemma_prepare_roundtrip(v, r);
        }
    }
    match res {
        Some((m, _)) => Some(m),
        None => None,
    }
}

/// `Commit` in bytes: its fields in order.
pub open spec fn enc_commit(m: CommitView) -> Seq<u8> {
    enc_u64(m.view_number) + enc_u64(m.sequence_number) + enc_bytes(m.digest) + enc_u64(m.node_id) + enc_bytes(m.signature)
}

/// Every list of a `Commit` is short enough for its length to be written.
pub open spec fn commit_fits(m: CommitView) -> bool {
    m.digest.len() <= u64::MAX && m.signature.len() <= u64::MAX
}

pub open spec fn parse_commit(s: Seq<u8>) -> Option<(CommitView, nat)> {
    match parse_u64(s) {
        None => None,
        Some((view_number, n0)) =>
        match parse_u64(s.skip((n0) as int)) {
            None => None,
            Some((sequence_number, n1)) =>
            match parse_bytes(s.skip((n0 + n1) as int)) {
                None => None,
                Some((digest, n2)) =>
                match parse_u64(s.skip((n0 + n1 + n2) as int)) {
                    None => None,
                    Some((node_id, n3)) =>
                    match parse_bytes(s.skip((n0 + n1 + n2 + n3) as int)) {
                        None => None,
                        Some((signature, n4)) =>
                            Some((CommitView { view_number, sequence_number, digest, node_id, signature }, (n0 + n1 + n2 + n3 + n4) as nat)),
                    },
                },
            },
        },
    }
}

pub proof fn lemma_commit_roundtrip(m: CommitView, r: Seq<u8>)
    requires
        commit_fits(m),
    ensures
        parse_commit(enc_commit(m) + r) == Some((m, enc_commit(m).len())),
{
    let e0 = enc_u64(m.view_number);
    let e1 = enc_u64(m.sequence_number);
    let e2 = enc_bytes(m.digest);
    let e3 = enc_u64(m.node_id);
    let e4 = enc_bytes(m.signature);
    let s = enc_commit(m) + r;
    assert(parse_u64(e0 + (e1 + e2 + e3 + e4 + r)) == Some((m.view_number, e0.len()))) by {
        lemma_u64_roundtrip(m.view_number, e1 + e2 + e3 + e4 + r);
    }
    assert(s == e0 + (e1 + e2 + e3 + e4 + r)) by { assert(s =~= e0 + (e1 + e2 + e3 + e4 + r)); }
    assert(parse_u64(e1 + (e2 + e3 + e4 + r)) == Some((m.sequence_number, e1.len()))) by {
        lemma_u64_roundtrip(m.sequence_number, e2 + e3 + e4 + r);
    }
    assert(s.skip(e0.len() as int) == e1 + (e2 + e3 + e4 + r)) by { assert(s.skip(e0.len() as int) =~= e1 + (e2 + e3 + e4 + r)); }
    assert(parse_bytes(e2 + (e3 + e4 + r)) == Some((m.digest, e2.len()))) by {
        lemma_bytes_roundtrip(m.digest, e3 + e4 + r);
    }
    assert(s.skip(e0.len() + e1.len() as int) == e2 + (e3 + e4 + r)) by { assert(s.skip(e0.len() + e1.len() as int) =~= e2 + (e3 + e4 + r)); }
    assert(parse_u64(e3 + (e4 + r)) == Some((m.node_id, e3.len()))) by {
        lemma_u64_roundtrip(m.node_id, e4 + r);
    }
    assert(s.skip(e0.len() + e1.len() + e2.len() as int) == e3 + (e4 + r)) by { assert(s.skip(e0.len() + e1.len() + e2.len() as int) =~= e3 + (e4 + r)); }
    assert(parse_bytes(e4 + (r)) == Some((m.signature, e4.len()))) by {
        lemma_bytes_roundtrip(m.signature, r);
    }
    assert(s.skip(e0.len() + e1.len() + e2.len() + e3.len() as int) == e4 + (r)) by { assert(s.skip(e0.len() + e1.len() + e2.len() + e3.len() as int) =~= e4 + (r)); }
}

pub proof fn lemma_commit_sound(s: Seq<u8>)
    ensures
        parse_commit(s) matches Some((m, n)) ==> n == enc_commit(m).len() && starts_with(s, enc_commit(m)) && commit_fits(m),
{
    if let Some((m, n)) = parse_commit(s) {
        lemma_u64_sound(s);
        let (_, n0) = parse_u64(s).unwrap();
        lemma_u64_sound(s.skip((n0) as int));
        let (_, n1) = parse_u64(s.skip((n0) as int)).unwrap();
        lemma_bytes_sound(s.skip((n0 + n1) as int));
        let (_, n2) = parse_bytes(s.skip((n0 + n1) as int)).unwrap();
        lemma_u64_sound(s.skip((n0 + n1 + n2) as int));
        let (_, n3) = parse_u64(s.skip((n0 + n1 + n2) as int)).unwrap();
        lemma_bytes_sound(s.skip((n0 + n1 + n2 + n3) as int));
        let (_, n4) = parse_bytes(s.skip((n0 + n1 + n2 + n3) as int)).unwrap();
        assert(s.take(n as int) =~= s.take(n0 as int) + s.skip((n0) as int).take(n1 as int) + s.skip((n0 + n1) as int).take(n2 as int) + s.skip((n0 + n1 + n2) as int).take(n3 as int) + s.skip((n0 + n1 + n2 + n3) as int).take(n4 as int));
    }
}

fn write_commit(out: &mut Vec<u8>, m: &Commit)
    ensures
        final(out)@ == old(out)@ + enc_commit(m@),
{
    let ghost start = out@;
    write_u64(out, m.view_number);
    write_u64(out, m.sequence_number);
    write_bytes(out, m.digest.as_slice());
    write_u64(out, m.node_id);
    write_bytes(out, m.signature.as_slice());
    assert(out@ =~= start + enc_commit(m@));
}

fn read_commit(buf: &[u8], pos: usize) -> (res: Option<(Commit, usize)>)
    requires
        pos <= buf@.len(),
    ensures
        match res {
            Some((m, p)) => p <= buf@.len() && pos <= p && parse_commit(rest_of(buf@, pos as int)) == Some((m@, (p - pos) as nat)),
            None => parse_commit(rest_of(buf@, pos as int)) is None,
        },
{
    let ghost s = rest_of(buf@, pos as int);
    let (view_number, p0) = match read_u64(buf, pos) {
        None => return None,
        Some(r) => r,
    };
    assert(rest_of(buf@, p0 as int) =~= s.skip(p0 - pos));
    let (sequence_number, p1) = match read_u64(buf, p0) {
        None => return None,
        Some(r) => r,
    };
    assert(rest_of(buf@, p1 as int) =~= s.skip(p1 - pos));
    let (digest, p2) = match read_bytes(buf, p1) {
        None => return None,
        Some(r) => r,
    };
    assert(rest_of(buf@, p2 as int) =~= s.skip(p2 - pos));
    let (node_id, p3) = match read_u64(buf, p2) {
        None => return None,
        Some(r) => r,
    };
    assert(rest_of(buf@, p3 as int) =~= s.skip(p3 - pos));
    let (signature, p4) = match read_bytes(buf, p3) {
        None => return None,
        Some(r) => r,
    };
    assert(rest_of(buf@, p4 as int) =~= s.skip(p4 - pos));
    Some((Commit { view_number, sequence_number, digest, node_id, signature }, p4))
}

/// The bytes in which a `Commit` is sent and signed.
pub fn encode_commit(m: &Commit) -> (res: Vec<u8>)
    ensures
        res@ == enc_commit(m@),
{
    let mut out: Vec<u8> = Vec::new();
    write_commit(&mut out, m);
    assert(out@ =~= enc_commit(m@));
    out
}

/// Reads a `Commit` back from the front of `bytes`; what follows it is ignored.
pub fn decode_commit(bytes: &[u8]) -> (res: Option<Commit>)
    ensures
        match res {
            Some(m) => starts_with(bytes@, enc_commit(m@)) && forall|v: CommitView|
                commit_fits(v) && starts_with(bytes@, #[trigger] enc_commit(v)) ==> v == m@,
            None => forall|v: CommitView| commit_fits(v) ==> !starts_with(bytes@, #[trigger] enc_commit(v)),
        },
        res is None <==> parse_commit(bytes@) is None,
        res matches Some(m) ==> (parse_commit(bytes@) matches Some((v, _)) && v == m@),
{
    let res = read_commit(bytes, 0);
    proof {
        assert(rest_of(bytes@, 0) =~= bytes@);
        lemma_commit_sound(bytes@);
        assert forall|v: CommitView| commit_fits(v) && starts_with(bytes@, #[trigger] enc_commit(v)) implies parse_commit(bytes@) == Some((v, enc_commit(v).len())) by {
            let r = bytes@.skip(enc_commit(v).len() as int);
            assert(bytes@ =~= enc_commit(v) + r);
            lemma_commit_roundtrip(v, r);
        }
    }
    match res {
        Some((m, _)) => Some(m),
        None => None,
    }
}

/// `Reply` in bytes: its fields in order.
pub open spec fn enc_reply(m: ReplyView) -> Seq<u8> {
    enc_u64(m.view_number) + enc_u64(m.timestamp) + enc_u64(m.client_id) + enc_u64(m.node_id) + enc_string(m.result) + enc_bytes(m.signature)
}

/// Every list of a `Reply` is short enough for its length to be written.
pub open spec fn reply_fits(m: ReplyView) -> bool {
    encode_utf8(m.result).len() <= u64::MAX && m.signature.len() <= u64::MAX
}

pub open spec fn parse_reply(s: Seq<u8>) -> Option<(ReplyView, nat)> {
    match parse_u64(s) {
        None => None,
        Some((view_number, n0)) =>
        match parse_u64(s.skip((n0) as int)) {
            None => None,
            Some((timestamp, n1)) =>
            match parse_u64(s.skip((n0 + n1) as int)) {
                None => None,
                Some((client_id, n2)) =>
                match parse_u64(s.skip((n0 + n1 + n2) as int)) {
                    None => None,
                    Some((node_id, n3)) =>
                    match parse_string(s.skip((n0 + n1 + n2 + n3) as int)) {
                        None => None,
                        Some((result, n4)) =>
                        match parse_bytes(s.skip((n0 + n1 + n2 + n3 + n4) as int)) {
                            None => None,
                            Some((signature, n5)) =>
                                Some((ReplyView { view_number, timestamp, client_id, node_id, result, signature }, (n0 + n1 + n2 + n3 + n4 + n5) as nat)),
                        },
                    },
                },
            },
        },
    }
}

#[verifier::spinoff_prover]
#[verifier::rlimit(100)]
pub proof fn lemma_reply_roundtrip(m: ReplyView, r: Seq<u8>)
    requires
        reply_fits(m),
    ensures
        parse_reply(enc_reply(m) + r) == Some((m, enc_reply(m).len())),
{
    let e0 = enc_u64(m.view_number);
    let e1 = enc_u64(m.timestamp);
    let e2 = enc_u64(m.client_id);
    let e3 = enc_u64(m.node_id);
    let e4 = enc_string(m.result);
    let e5 = enc_bytes(m.signature);
    let s = enc_reply(m) + r;
    assert(parse_u64(e0 + (e1 + e2 + e3 + e4 + e5 + r)) == Some((m.view_number, e0.len()))) by {
        lemma_u64_roundtrip(m.view_number, e1 + e2 + e3 + e4 + e5 + r);
    }
    assert(s == e0 + (e1 + e2 + e3 + e4 + e5 + r)) by { assert(s =~= e0 + (e1 + e2 + e3 + e4 + e5 + r)); }
    assert(parse_u64(e1 + (e2 + e3 + e4 + e5 + r)) == Some((m.timestamp, e1.len()))) by {
        lemma_u64_roundtrip(m.timestamp, e2 + e3 + e4 + e5 + r);
    }
    assert(s.skip(e0.len() as int) == e1 + (e2 + e3 + e4 + e5 + r)) by { assert(s.skip(e0.len() as int) =~= e1 + (e2 + e3 + e4 + e5 + r)); }
    assert(parse_u64(e2 + (e3 + e4 + e5 + r)) == Some((m.client_id, e2.len()))) by {
        lemma_u64_roundtrip(m.client_id, e3 + e4 + e5 + r);
    }
    assert(s.skip(e0.len() + e1.len() as int) == e2 + (e3 + e4 + e5 + r)) by { assert(s.skip(e0.len() + e1.len() as int) =~= e2 + (e3 + e4 + e5 + r)); }
    assert(parse_u64(e3 + (e4 + e5 + r)) == Some((m.node_id, e3.len()))) by {
        lemma_u64_roundtrip(m.node_id, e4 + e5 + r);
    }
    assert(s.skip(e0.len() + e1.len() + e2.len() as int) == e3 + (e4 + e5 + r)) by { assert(s.skip(e0.len() + e1.len() + e2.len() as int) =~= e3 + (e4 + e5 + r)); }
    assert(parse_string(e4 + (e5 + r)) == Some((m.result, e4.len()))) by {
        lemma_string_roundtrip(m.result, e5 + r);
    }
    assert(s.skip(e0.len() + e1.len() + e2.len() + e3.len() as int) == e4 + (e5 + r)) by { assert(s.skip(e0.len() + e1.len() + e2.len() + e3.len() as int) =~= e4 + (e5 + r)); }
    assert(parse_bytes(e5 + (r)) == Some((m.signature, e5.len()))) by {
        lemma_bytes_roundtrip(m.signature, r);
    }
    assert(s.skip(e0.len() + e1.len() + e2.len() + e3.len() + e4.len() as int) == e5 + (r)) by { assert(s.skip(e0.len() + e1.len() + e2.len() + e3.len() + e4.len() as int) =~= e5 + (r)); }
}

pub proof fn lemma_reply_sound(s: Seq<u8>)
    ensures
        parse_reply(s) matches Some((m, n)) ==> n == enc_reply(m).len() && starts_with(s, enc_reply(m)) && reply_fits(m),
{
    if let Some((m, n)) = parse_reply(s) {
        lemma_u64_sound(s);
        let (_, n0) = parse_u64(s).unwrap();
        lemma_u64_sound(s.skip((n0) as int));
        let (_, n1) = parse_u64(s.skip((n0) as int)).unwrap();
        lemma_u64_sound(s.skip((n0 + n1) as int));
        let (_, n2) = parse_u64(s.skip((n0 + n1) as int)).unwrap();
        lemma_u64_sound(s.skip((n0 + n1 + n2) as int));
        let (_, n3) = parse_u64(s.skip((n0 + n1 + n2) as int)).unwrap();
        lemma_string_sound(s.skip((n0 + n1 + n2 + n3) as int));
        let (_, n4) = parse_string(s.skip((n0 + n1 + n2 + n3) as int)).unwrap();
        lemma_bytes_sound(s.skip((n0 + n1 + n2 + n3 + n4) as int));
        let (_, n5) = parse_bytes(s.skip((n0 + n1 + n2 + n3 + n4) as int)).unwrap();
        assert(s.take(n as int) =~= s.take(n0 as int) + s.skip((n0) as int).take(n1 as int) + s.skip((n0 + n1) as int).take(n2 as int) + s.skip((n0 + n1 + n2) as int).take(n3 as int) + s.skip((n0 + n1 + n2 + n3) as int).take(n4 as int) + s.skip((n0 + n1 + n2 + n3 + n4) as int).take(n5 as int));
    }
}

fn write_reply(out: &mut Vec<u8>, m: &Reply)
    ensures
        final(out)@ == old(out)@ + enc_reply(m@),
{
    let ghost start = out@;
    write_u64(out, m.view_number);
    write_u64(out, m.timestamp);
    write_u64(out, m.client_id);
    write_u64(out, m.node_id);
    write_string(out, &m.result);
    write_bytes(out, m.signature.as_slice());
    assert(out@ =~= start + enc_reply(m@));
}

fn read_reply(buf: &[u8], pos: usize) -> (res: Option<(Reply, usize)>)
    requires
        pos <= buf@.len(),
    ensures
        match res {
            Some((m, p)) => p <= buf@.len() && pos <= p && parse_reply(rest_of(buf@, pos as int)) == Some((m@, (p - pos) as nat)),
            None => parse_reply(rest_of(buf@, pos as int)) is None,
        },
{
    let ghost s = rest_of(buf@, pos as int);
    let (view_number, p0) = match read_u64(buf, pos) {
        None => return None,
        Some(r) => r,
    };
    assert(rest_of(buf@, p0 as int) =~= s.skip(p0 - pos));
    let (timestamp, p1) = match read_u64(buf, p0) {
        None => return None,
        Some(r) => r,
    };
    assert(rest_of(buf@, p1 as int) =~= s.skip(p1 - pos));
    let (client_id, p2) = match read_u64(buf, p1) {
        None => return None,
        Some(r) => r,
    };
    assert(rest_of(buf@, p2 as int) =~= s.skip(p2 - pos));
    let (node_id, p3) = match read_u64(buf, p2) {
        None => return None,
        Some(r) => r,
    };
    assert(rest_of(buf@, p3 as int) =~= s.skip(p3 - pos));
    let (result, p4) = match read_string(buf, p3) {
        None => return None,
        Some(r) => r,
    };
    assert(rest_of(buf@, p4 as int) =~= s.skip(p4 - pos));
    let (signature, p5) = match read_bytes(buf, p4) {
        None => return None,
        Some(r) => r,
    };
    assert(rest_of(buf@, p5 as int) =~= s.skip(p5 - pos));
    Some((Reply { view_number, timestamp, client_id, node_id, result, signature }, p5))
}

/// The bytes in which a `Reply` is sent and signed.
pub fn encode_reply(m: &Reply) -> (res: Vec<u8>)
    ensures
        res@ == enc_reply(m@),
{
    let mut out: Vec<u8> = Vec::new();
    write_reply(&mut out, m);
    assert(out@ =~= enc_reply(m@));
    out
}

/// Reads a `Reply` back from the front of `bytes`; what follows it is ignored.
pub fn decode_reply(bytes: &[u8]) -> (res: Option<Reply>)
    ensures
        match res {
            Some(m) => starts_with(bytes@, enc_reply(m@)) && forall|v: ReplyView|
                reply_fits(v) && starts_with(bytes@, #[trigger] enc_reply(v)) ==> v == m@,
            None => forall|v: ReplyView| reply_fits(v) ==> !starts_with(bytes@, #[trigger] enc_reply(v)),
        },
        res is None <==> parse_reply(bytes@) is None,
        res matches Some(m) ==> (parse_reply(bytes@) matches Some((v, _)) && v == m@),
{
    let res = read_reply(bytes, 0);
    proof {
        assert(rest_of(bytes@, 0) =~= bytes@);
        lemma_reply_sound(bytes@);
        assert forall|v: ReplyView| reply_fits(v) && starts_with(bytes@, #[trigger] enc_reply(v)) implies parse_reply(bytes@) == Some((v, enc_reply(v).len())) by {
            let r = bytes@.skip(enc_reply(v).len() as int);
            assert(bytes@ =~= enc_reply(v) + r);
            lemma_reply_roundtrip(v, r);
        }
    }
    match res {
        Some((m, _)) => Some(m),
        None => None,
    }
}

/// `Hearbeat` in bytes: its fields in order.
pub open spec fn enc_hearbeat(m: HearbeatView) -> Seq<u8> {
    enc_u64(m.view_number) + enc_u64(m.sequence_number) + enc_u64(m.node_id) + enc_bytes(m.signature)
}

/// Every list of a `Hearbeat` is short enough for its length to be written.
pub open spec fn hearbeat_fits(m: HearbeatView) -> bool {
    m.signature.len() <= u64::MAX
}

pub open spec fn parse_hearbeat(s: Seq<u8>) -> Option<(HearbeatView, nat)> {
    match parse_u64(s) {
        None => None,
        Some((view_number, n0)) =>
        match parse_u64(s.skip((n0) as int)) {
            None => None,
            Some((sequence_number, n1)) =>
            match parse_u64(s.skip((n0 + n1) as int)) {
                None => None,
                Some((node_id, n2)) =>
                match parse_bytes(s.skip((n0 + n1 + n2) as int)) {
                    None => None,
                    Some((signature, n3)) =>
                        Some((HearbeatView { view_number, sequence_number, node_id, signature }, (n0 + n1 + n2 + n3) as nat)),
                },
            },
        },
    }
}

pub proof fn lemma_hearbeat_roundtrip(m: HearbeatView, r: Seq<u8>)
    requires
        hearbeat_fits(m),
    ensures
        parse_hearbeat(enc_hearbeat(m) + r) == Some((m, enc_hearbeat(m).len())),
{
    let e0 = enc_u64(m.view_number);
    let e1 = enc_u64(m.sequence_number);
    let e2 = enc_u64(m.node_id);
    let e3 = enc_bytes(m.signature);
    let s = enc_hearbeat(m) + r;
    assert(parse_u64(e0 + (e1 + e2 + e3 + r)) == Some((m.view_number, e0.len()))) by {
        lemma_u64_roundtrip(m.view_number, e1 + e2 + e3 + r);
    }
    assert(s == e0 + (e1 + e2 + e3 + r)) by { assert(s =~= e0 + (e1 + e2 + e3 + r)); }
    assert(parse_u64(e1 + (e2 + e3 + r)) == Some((m.sequence_number, e1.len()))) by {
        lemma_u64_roundtrip(m.sequence_number, e2 + e3 + r);
    }
    assert(s.skip(e0.len() as int) == e1 + (e2 + e3 + r)) by { assert(s.skip(e0.len() as int) =~= e1 + (e2 + e3 + r)); }
    assert(parse_u64(e2 + (e3 + r)) == Some((m.node_id, e2.len()))) by {
        lemma_u64_roundtrip(m.node_id, e3 + r);
    }
    assert(s.skip(e0.len() + e1.len() as int) == e2 + (e3 + r)) by { assert(s.skip(e0.len() + e1.len() as int) =~= e2 + (e3 + r)); }
    assert(parse_bytes(e3 + (r)) == Some((m.signature, e3.len()))) by {
        lemma_bytes_roundtrip(m.signature, r);
    }
    assert(s.skip(e0.len() + e1.len() + e2.len() as int) == e3 + (r)) by { assert(s.skip(e0.len() + e1.len() + e2.len() as int) =~= e3 + (r)); }
}

pub proof fn lemma_hearbeat_sound(s: Seq<u8>)
    ensures
        parse_hearbeat(s) matches Some((m, n)) ==> n == enc_hearbeat(m).len() && starts_with(s, enc_hearbeat(m)) && hearbeat_fits(m),
{
    if let Some((m, n)) = parse_hearbeat(s) {
        lemma_u64_sound(s);
        let (_, n0) = parse_u64(s).unwrap();
        lemma_u64_sound(s.skip((n0) as int));
        let (_, n1) = parse_u64(s.skip((n0) as int)).unwrap();
        lemma_u64_sound(s.skip((n0 + n1) as int));
        let (_, n2) = parse_u64(s.skip((n0 + n1) as int)).unwrap();
        lemma_bytes_sound(s.skip((n0 + n1 + n2) as int));
        let (_, n3) = parse_bytes(s.skip((n0 + n1 + n2) as int)).unwrap();
        assert(s.take(n as int) =~= s.take(n0 as int) + s.skip((n0) as int).take(n1 as int) + s.skip((n0 + n1) as int).take(n2 as int) + s.skip((n0 + n1 + n2) as int).take(n3 as int));
    }
}

fn write_hearbeat(out: &mut Vec<u8>, m: &Hearbeat)
    ensures
        final(out)@ == old(out)@ + enc_hearbeat(m@),
{
    let ghost start = out@;
    write_u64(out, m.view_number);
    write_u64(out, m.sequence_number);
    write_u64(out, m.node_id);
    write_bytes(out, m.signature.as_slice());
    assert(out@ =~= start + enc_hearbeat(m@));
}

fn read_hearbeat(buf: &[u8], pos: usize) -> (res: Option<(Hearbeat, usize)>)
    requires
        pos <= buf@.len(),
    ensures
        match res {
            Some((m, p)) => p <= buf@.len() && pos <= p && parse_hearbeat(rest_of(buf@, pos as int)) == Some((m@, (p - pos) as nat)),
            None => parse_hearbeat(rest_of(buf@, pos as int)) is None,
        },
{
    let ghost s = rest_of(buf@, pos as int);
    let (view_number, p0) = match read_u64(buf, pos) {
        None => return None,
        Some(r) => r,
    };
    assert(rest_of(buf@, p0 as int) =~= s.skip(p0 - pos));
    let (sequence_number, p1) = match read_u64(buf, p0) {
        None => return None,
        Some(r) => r,
    };
    assert(rest_of(buf@, p1 as int) =~= s.skip(p1 - pos));
    let (node_id, p2) = match read_u64(buf, p1) {
        None => return None,
        Some(r) => r,
    };
    assert(rest_of(buf@, p2 as int) =~= s.skip(p2 - pos));
    let (signature, p3) = match read_bytes(buf, p2) {
        None => return None,
        Some(r) => r,
    };
    assert(rest_of(buf@, p3 as int) =~= s.skip(p3 - pos));
    Some((Hearbeat { view_number, sequence_number, node_id, signature }, p3))
}

/// The bytes in which a `Hearbeat` is sent and signed.
pub fn encode_hearbeat(m: &Hearbeat) -> (res: Vec<u8>)
    ensures
        res@ == enc_hearbeat(m@),
{
    let mut out: Vec<u8> = Vec::new();
    write_hearbeat(&mut out, m);
    assert(out@ =~= enc_hearbeat(m@));
    out
}

/// Reads a `Hearbeat` back from the front of `bytes`; what follows it is ignored.
pub fn decode_hearbeat(bytes: &[u8]) -> (res: Option<Hearbeat>)
    ensures
        match res {
            Some(m) => starts_with(bytes@, enc_hearbeat(m@)) && forall|v: HearbeatView|
                hearbeat_fits(v) && starts_with(bytes@, #[trigger] enc_hearbeat(v)) ==> v == m@,
            None => forall|v: HearbeatView| hearbeat_fits(v) ==> !starts_with(bytes@, #[trigger] enc_hearbeat(v)),
        },
        res is None <==> parse_hearbeat(bytes@) is None,
        res matches Some(m) ==> (parse_hearbeat(bytes@) matches Some((v, _)) && v == m@),
{
    let res = read_hearbeat(bytes, 0);
    proof {
        assert(rest_of(bytes@, 0) =~= bytes@);
        lemma_hearbeat_sound(bytes@);
        assert forall|v: HearbeatView| hearbeat_fits(v) && starts_with(bytes@, #[trigger] enc_hearbeat(v)) implies parse_hearbeat(bytes@) == Some((v, enc_hearbeat(v).len())) by {
            let r = bytes@.skip(enc_hearbeat(v).len() as int);
            assert(bytes@ =~= enc_hearbeat(v) + r);
            lemma_hearbeat_roundtrip(v, r);
        }
    }
    match res {
        Some((m, _)) => Some(m),
        None => None,
    }
}

/// `ViewChange` in bytes: its fields in order.
pub open spec fn enc_view_change(m: ViewChangeView) -> Seq<u8> {
    enc_u64(m.view_number) + enc_u64(m.sequence_number) + enc_u64(m.node_id) + enc_u64(m.new_view_number) + enc_bytes(m.signature)
}

/// Every list of a `ViewChange` is short enough for its length to be written.
pub open spec fn view_change_fits(m: ViewChangeView) -> bool {
    m.signature.len() <= u64::MAX
}

pub open spec fn parse_view_change(s: Seq<u8>) -> Option<(ViewChangeView, nat)> {
    match parse_u64(s) {
        None => None,
        Some((view_number, n0)) =>
        match parse_u64(s.skip((n0) as int)) {
            None => None,
            Some((sequence_number, n1)) =>
            match parse_u64(s.skip((n0 + n1) as int)) {
                None => None,
                Some((node_id, n2)) =>
                match parse_u64(s.skip((n0 + n1 + n2) as int)) {
                    None => None,
                    Some((new_view_number, n3)) =>
                    match parse_bytes(s.skip((n0 + n1 + n2 + n3) as int)) {
                        None => None,
                        Some((signature, n4)) =>
                            Some((ViewChangeView { view_number, sequence_number, node_id, new_view_number, signature }, (n0 + n1 + n2 + n3 + n4) as nat)),
                    },
                },
            },
        },
    }
}

pub proof fn lemma_view_change_roundtrip(m: ViewChangeView, r: Seq<u8>)
    requires
        view_change_fits(m),
    ensures
        parse_view_change(enc_view_change(m) + r) == Some((m, enc_view_change(m).len())),
{
    let e0 = enc_u64(m.view_number);
    let e1 = enc_u64(m.sequence_number);
    let e2 = enc_u64(m.node_id);
    let e3 = enc_u64(m.new_view_number);
    let e4 = enc_bytes(m.signature);
    let s = enc_view_change(m) + r;
    assert(parse_u64(e0 + (e1 + e2 + e3 + e4 + r)) == Some((m.view_number, e0.len()))) by {
        lemma_u64_roundtrip(m.view_number, e1 + e2 + e3 + e4 + r);
    }
    assert(s == e0 + (e1 + e2 + e3 + e4 + r)) by { assert(s =~= e0 + (e1 + e2 + e3 + e4 + r)); }
    assert(parse_u64(e1 + (e2 + e3 + e4 + r)) == Some((m.sequence_number, e1.len()))) by {
        lemma_u64_roundtrip(m.sequence_number, e2 + e3 + e4 + r);
    }
    assert(s.skip(e0.len() as int) == e1 + (e2 + e3 + e4 + r)) by { assert(s.skip(e0.len() as int) =~= e1 + (e2 + e3 + e4 + r)); }
    assert(parse_u64(e2 + (e3 + e4 + r)) == Some((m.node_id, e2.len()))) by {
        lemma_u64_roundtrip(m.node_id, e3 + e4 + r);
    }
    assert(s.skip(e0.len() + e1.len() as int) == e2 + (e3 + e4 + r)) by { assert(s.skip(e0.len() + e1.len() as int) =~= e2 + (e3 + e4 + r)); }
    assert(parse_u64(e3 + (e4 + r)) == Some((m.new_view_number, e3.len()))) by {
        lemma_u64_roundtrip(m.new_view_number, e4 + r);
    }
    assert(s.skip(e0.len() + e1.len() + e2.len() as int) == e3 + (e4 + r)) by { assert(s.skip(e0.len() + e1.len() + e2.len() as int) =~= e3 + (e4 + r)); }
    assert(parse_bytes(e4 + (r)) == Some((m.signature, e4.len()))) by {
        lemma_bytes_roundtrip(m.signature, r);
    }
    assert(s.skip(e0.len() + e1.len() + e2.len() + e3.len() as int) == e4 + (r)) by { assert(s.skip(e0.len() + e1.len() + e2.len() + e3.len() as int) =~= e4 + (r)); }
}

pub proof fn lemma_view_change_sound(s: Seq<u8>)
    ensures
        parse_view_change(s) matches Some((m, n)) ==> n == enc_view_change(m).len() && starts_with(s, enc_view_change(m)) && view_change_fits(m),
{
    if let Some((m, n)) = parse_view_change(s) {
        lemma_u64_sound(s);
        let (_, n0) = parse_u64(s).unwrap();
        lemma_u64_sound(s.skip((n0) as int));
        let (_, n1) = parse_u64(s.skip((n0) as int)).unwrap();
        lemma_u64_sound(s.skip((n0 + n1) as int));
        let (_, n2) = parse_u64(s.skip((n0 + n1) as int)).unwrap();
        lemma_u64_sound(s.skip((n0 + n1 + n2) as int));
        let (_, n3) = parse_u64(s.skip((n0 + n1 + n2) as int)).unwrap();
        lemma_bytes_sound(s.skip((n0 + n1 + n2 + n3) as int));
        let (_, n4) = parse_bytes(s.skip((n0 + n1 + n2 + n3) as int)).unwrap();
        assert(s.take(n as int) =~= s.take(n0 as int) + s.skip((n0) as int).take(n1 as int) + s.skip((n0 + n1) as int).take(n2 as int) + s.skip((n0 + n1 + n2) as int).take(n3 as int) + s.skip((n0 + n1 + n2 + n3) as int).take(n4 as int));
    }
}

fn write_view_change(out: &mut Vec<u8>, m: &ViewChange)
    ensures
        final(out)@ == old(out)@ + enc_view_change(m@),
{
    let ghost start = out@;
    write_u64(out, m.view_number);
    write_u64(out, m.sequence_number);
    write_u64(out, m.node_id);
    write_u64(out, m.new_view_number);
    write_bytes(out, m.signature.as_slice());
    assert(out@ =~= start + enc_view_change(m@));
}

fn read_view_change(buf: &[u8], pos: usize) -> (res: Option<(ViewChange, usize)>)
    requires
        pos <= buf@.len(),
    ensures
        match res {
            Some((m, p)) => p <= buf@.len() && pos <= p && parse_view_change(rest_of(buf@, pos as int)) == Some((m@, (p - pos) as nat)),
            None => parse_view_change(rest_of(buf@, pos as int)) is None,
        },
{
    let ghost s = rest_of(buf@, pos as int);
    let (view_number, p0) = match read_u64(buf, pos) {
        None => return None,
        Some(r) => r,
    };
    assert(rest_of(buf@, p0 as int) =~= s.skip(p0 - pos));
    let (sequence_number, p1) = match read_u64(buf, p0) {
        None => return None,
        Some(r) => r,
    };
    assert(rest_of(buf@, p1 as int) =~= s.skip(p1 - pos));
    let (node_id, p2) = match read_u64(buf, p1) {
        None => return None,
        Some(r) => r,
    };
    assert(rest_of(buf@, p2 as int) =~= s.skip(p2 - pos));
    let (new_view_number, p3) = match read_u64(buf, p2) {
        None => return None,
        Some(r) => r,
    };
    assert(rest_of(buf@, p3 as int) =~= s.skip(p3 - pos));
    let (signature, p4) = match read_bytes(buf, p3) {
        None => return None,
        Some(r) => r,
    };
    assert(rest_of(buf@, p4 as int) =~= s.skip(p4 - pos));
    Some((ViewChange { view_number, sequence_number, node_id, new_view_number, signature }, p4))
}

/// The bytes in which a `ViewChange` is sent and signed.
pub fn encode_view_change(m: &ViewChange) -> (res: Vec<u8>)
    ensures
        res@ == enc_view_change(m@),
{
    let mut out: Vec<u8> = Vec::new();
    write_view_change(&mut out, m);
    assert(out@ =~= enc_view_change(m@));
    out
}

/// Reads a `ViewChange` back from the front of `bytes`; what follows it is ignored.
pub fn decode_view_change(bytes: &[u8]) -> (res: Option<ViewChange>)
    ensures
        match res {
            Some(m) => starts_with(bytes@, enc_view_change(m@)) && forall|v: ViewChangeView|
                view_change_fits(v) && starts_with(bytes@, #[trigger] enc_view_change(v)) ==> v == m@,
            None => forall|v: ViewChangeView| view_change_fits(v) ==> !starts_with(bytes@, #[trigger] enc_view_change(v)),
        },
        res is None <==> parse_view_change(bytes@) is None,
        res matches Some(m) ==> (parse_view_change(bytes@) matches Some((v, _)) && v == m@),
{
    let res = read_view_change(bytes, 0);
    proof {
        assert(rest_of(bytes@, 0) =~= bytes@);
        lemma_view_change_sound(bytes@);
        assert forall|v: ViewChangeView| view_change_fits(v) && starts_with(bytes@, #[trigger] enc_view_change(v)) implies parse_view_change(bytes@) == Some((v, enc_view_change(v).len())) by {
            let r = bytes@.skip(enc_view_change(v).len() as int);
            assert(bytes@ =~= enc_view_change(v) + r);
            lemma_view_change_roundtrip(v, r);
        }
    }
    match res {
        Some((m, _)) => Some(m),
        None => None,
    }
}

/// `NewView` in bytes: its fields in order.
pub open spec fn enc_new_view(m: NewViewView) -> Seq<u8> {
    enc_u64(m.view_number) + enc_u64(m.sequence_number) + enc_u64(m.node_id) + enc_bytes(m.signature)
}

/// Every list of a `NewView` is short enough for its length to be written.
pub open spec fn new_view_fits(m: NewViewView) -> bool {
    m.signature.len() <= u64::MAX
}

pub open spec fn parse_new_view(s: Seq<u8>) -> Option<(NewViewView, nat)> {
    match parse_u64(s) {
        None => None,
        Some((view_number, n0)) =>
        match parse_u64(s.skip((n0) as int)) {
            None => None,
            Some((sequence_number, n1)) =>
            match parse_u64(s.skip((n0 + n1) as int)) {
                None => None,
                Some((node_id, n2)) =>
                match parse_bytes(s.skip((n0 + n1 + n2) as int)) {
                    None => None,
                    Some((signature, n3)) =>
                        Some((NewViewView { view_number, sequence_number, node_id, signature }, (n0 + n1 + n2 + n3) as nat)),
                },
            },
        },
    }
}

pub proof fn lemma_new_view_roundtrip(m: NewViewView, r: Seq<u8>)
    requires
        new_view_fits(m),
    ensures
        parse_new_view(enc_new_view(m) + r) == Some((m, enc_new_view(m).len())),
{
    let e0 = enc_u64(m.view_number);
    let e1 = enc_u64(m.sequence_number);
    let e2 = enc_u64(m.node_id);
    let e3 = enc_bytes(m.signature);
    let s = enc_new_view(m) + r;
    assert(parse_u64(e0 + (e1 + e2 + e3 + r)) == Some((m.view_number, e0.len()))) by {
        lemma_u64_roundtrip(m.view_number, e1 + e2 + e3 + r);
    }
    assert(s == e0 + (e1 + e2 + e3 + r)) by { assert(s =~= e0 + (e1 + e2 + e3 + r)); }
    assert(parse_u64(e1 + (e2 + e3 + r)) == Some((m.sequence_number, e1.len()))) by {
        lemma_u64_roundtrip(m.sequence_number, e2 + e3 + r);
    }
    assert(s.skip(e0.len() as int) == e1 + (e2 + e3 + r)) by { assert(s.skip(e0.len() as int) =~= e1 + (e2 + e3 + r)); }
    assert(parse_u64(e2 + (e3 + r)) == Some((m.node_id, e2.len()))) by {
        lemma_u64_roundtrip(m.node_id, e3 + r);
    }
    assert(s.skip(e0.len() + e1.len() as int) == e2 + (e3 + r)) by { assert(s.skip(e0.len() + e1.len() as int) =~= e2 + (e3 + r)); }
    assert(parse_bytes(e3 + (r)) == Some((m.signature, e3.len()))) by {
        lemma_bytes_roundtrip(m.signature, r);
    }
    assert(s.skip(e0.len() + e1.len() + e2.len() as int) == e3 + (r)) by { assert(s.skip(e0.len() + e1.len() + e2.len() as int) =~= e3 + (r)); }
}

pub proof fn lemma_new_view_sound(s: Seq<u8>)
    ensures
        parse_new_view(s) matches Some((m, n)) ==> n == enc_new_view(m).len() && starts_with(s, enc_new_view(m)) && new_view_fits(m),
{
    if let Some((m, n)) = parse_new_view(s) {
        lemma_u64_sound(s);
        let (_, n0) = parse_u64(s).unwrap();
        lemma_u64_sound(s.skip((n0) as int));
        let (_, n1) = parse_u64(s.skip((n0) as int)).unwrap();
        lemma_u64_sound(s.skip((n0 + n1) as int));
        let (_, n2) = parse_u64(s.skip((n0 + n1) as int)).unwrap();
        lemma_bytes_sound(s.skip((n0 + n1 + n2) as int));
        let (_, n3) = parse_bytes(s.skip((n0 + n1 + n2) as int)).unwrap();
        assert(s.take(n as int) =~= s.take(n0 as int) + s.skip((n0) as int).take(n1 as int) + s.skip((n0 + n1) as int).take(n2 as int) + s.skip((n0 + n1 + n2) as int).take(n3 as int));
    }
}

fn write_new_view(out: &mut Vec<u8>, m: &NewView)
    ensures
        final(out)@ == old(out)@ + enc_new_view(m@),
{
    let ghost start = out@;
    write_u64(out, m.view_number);
    write_u64(out, m.sequence_number);
    write_u64(out, m.node_id);
    write_bytes(out, m.signature.as_slice());
    assert(out@ =~= start + enc_new_view(m@));
}

fn read_new_view(buf: &[u8], pos: usize) -> (res: Option<(NewView, usize)>)
    requires
        pos <= buf@.len(),
    ensures
        match res {
            Some((m, p)) => p <= buf@.len() && pos <= p && parse_new_view(rest_of(buf@, pos as int)) == Some((m@, (p - pos) as nat)),
            None => parse_new_view(rest_of(buf@, pos as int)) is None,
        },
{
    let ghost s = rest_of(buf@, pos as int);
    let (view_number, p0) = match read_u64(buf, pos) {
        None => return None,
        Some(r) => r,
    };
    assert(rest_of(buf@, p0 as int) =~= s.skip(p0 - pos));
    let (sequence_number, p1) = match read_u64(buf, p0) {
        None => return None,
        Some(r) => r,
    };
    assert(rest_of(buf@, p1 as int) =~= s.skip(p1 - pos));
    let (node_id, p2) = match read_u64(buf, p1) {
        None => return None,
        Some(r) => r,
    };
    assert(rest_of(buf@, p2 as int) =~= s.skip(p2 - pos));
    let (signature, p3) = match read_bytes(buf, p2) {
        None => return None,
        Some(r) => r,
    };
    assert(rest_of(buf@, p3 as int) =~= s.skip(p3 - pos));
    Some((NewView { view_number, sequence_number, node_id, signature }, p3))
}

/// The bytes in which a `NewView` is sent and signed.
pub fn encode_new_view(m: &NewView) -> (res: Vec<u8>)
    ensures
        res@ == enc_new_view(m@),
{
    let mut out: Vec<u8> = Vec::new();
    write_new_view(&mut out, m);
    assert(out@ =~= enc_new_view(m@));
    out
}

/// Reads a `NewView` back from the front of `bytes`; what follows it is ignored.
pub fn decode_new_view(bytes: &[u8]) -> (res: Option<NewView>)
    ensures
        match res {
            Some(m) => starts_with(bytes@, enc_new_view(m@)) && forall|v: NewViewView|
                new_view_fits(v) && starts_with(bytes@, #[trigger] enc_new_view(v)) ==> v == m@,
            None => forall|v: NewViewView| new_view_fits(v) ==> !starts_with(bytes@, #[trigger] enc_new_view(v)),
        },
        res is None <==> parse_new_view(bytes@) is None,
        res matches Some(m) ==> (parse_new_view(bytes@) matches Some((v, _)) && v == m@),
{
    let res = read_new_view(bytes, 0);
    proof {
        assert(rest_of(bytes@, 0) =~= bytes@);
        lemma_new_view_sound(bytes@);
        assert forall|v: NewViewView| new_view_fits(v) && starts_with(bytes@, #[trigger] enc_new_view(v)) implies parse_new_view(bytes@) == Some((v, enc_new_view(v).len())) by {
            let r = bytes@.skip(enc_new_view(v).len() as int);
            assert(bytes@ =~= enc_new_view(v) + r);
            lemma_new_view_roundtrip(v, r);
        }
    }
    match res {
        Some((m, _)) => Some(m),
        None => None,
    }
}

/// `ViewRequest` in bytes: its fields in order.
pub open spec fn enc_view_request(m: ViewRequestView) -> Seq<u8> {
    Seq::empty()
}

/// Every list of a `ViewRequest` is short enough for its length to be written.
pub open spec fn view_request_fits(m: ViewRequestView) -> bool {
    true
}

pub open spec fn parse_view_request(s: Seq<u8>) -> Option<(ViewRequestView, nat)> {
    Some((ViewRequestView {  }, 0nat))
}

pub proof fn lemma_view_request_roundtrip(m: ViewRequestView, r: Seq<u8>)
    requires
        view_request_fits(m),
    ensures
        parse_view_request(enc_view_request(m) + r) == Some((m, enc_view_request(m).len())),
{
    assert(enc_view_request(m) + r =~= r);
}

pub proof fn lemma_view_request_sound(s: Seq<u8>)
    ensures
        parse_view_request(s) matches Some((m, n)) ==> n == enc_view_request(m).len() && starts_with(s, enc_view_request(m)) && view_request_fits(m),
{
    if let Some((m, n)) = parse_view_request(s) {
        assert(s.take(0) =~= enc_view_request(m));
    }
}

fn write_view_request(out: &mut Vec<u8>, m: &ViewRequest)
    ensures
        final(out)@ == old(out)@ + enc_view_request(m@),
{
    let ghost start = out@;
    assert(out@ =~= start + enc_view_request(m@));
}

fn read_view_request(buf: &[u8], pos: usize) -> (res: Option<(ViewRequest, usize)>)
    requires
        pos <= buf@.len(),
    ensures
        match res {
            Some((m, p)) => p <= buf@.len() && pos <= p && parse_view_request(rest_of(buf@, pos as int)) == Some((m@, (p - pos) as nat)),
            None => parse_view_request(rest_of(buf@, pos as int)) is None,
        },
{
    let ghost s = rest_of(buf@, pos as int);
    Some((ViewRequest {  }, pos))
}

/// The bytes in which a `ViewRequest` is sent and signed.
pub fn encode_view_request(m: &ViewRequest) -> (res: Vec<u8>)
    ensures
        res@ == enc_view_request(m@),
{
    let mut out: Vec<u8> = Vec::new();
    write_view_request(&mut out, m);
    assert(out@ =~= enc_view_request(m@));
    out
}

/// Reads a `ViewRequest` back from the front of `bytes`; what follows it is ignored.
pub fn decode_view_request(bytes: &[u8]) -> (res: Option<ViewRequest>)
    ensures
        match res {
            Some(m) => starts_with(bytes@, enc_view_request(m@)) && forall|v: ViewRequestView|
                view_request_fits(v) && starts_with(bytes@, #[trigger] enc_view_request(v)) ==> v == m@,
            None => forall|v: ViewRequestView| view_request_fits(v) ==> !starts_with(bytes@, #[trigger] enc_view_request(v)),
        },
        res is None <==> parse_view_request(bytes@) is None,
        res matches Some(m) ==> (parse_view_request(bytes@) matches Some((v, _)) && v == m@),
{
    let res = read_view_request(bytes, 0);
    proof {
        assert(rest_of(bytes@, 0) =~= bytes@);
        lemma_view_request_sound(bytes@);
        assert forall|v: ViewRequestView| view_request_fits(v) && starts_with(bytes@, #[trigger] enc_view_request(v)) implies parse_view_request(bytes@) == Some((v, enc_view_request(v).len())) by {
            let r = bytes@.skip(enc_view_request(v).len() as int);
            assert(bytes@ =~= enc_view_request(v) + r);
            lemma_view_request_roundtrip(v, r);
        }
    }
    match res {
        Some((m, _)) => Some(m),
        None => None,
    }
}

/// `ViewResponse` in bytes: its fields in order.
pub open spec fn enc_view_response(m: ViewResponseView) -> Seq<u8> {
    enc_u64(m.view_number) + enc_u64(m.node_id) + enc_bytes(m.signature)
}

/// Every list of a `ViewResponse` is short enough for its length to be written.
pub open spec fn view_response_fits(m: ViewResponseView) -> bool {
    m.signature.len() <= u64::MAX
}

pub open spec fn parse_view_response(s: Seq<u8>) -> Option<(ViewResponseView, nat)> {
    match parse_u64(s) {
        None => None,
        Some((view_number, n0)) =>
        match parse_u64(s.skip((n0) as int)) {
            None => None,
            Some((node_id, n1)) =>
            match parse_bytes(s.skip((n0 + n1) as int)) {
                None => None,
                Some((signature, n2)) =>
                    Some((ViewResponseView { view_number, node_id, signature }, (n0 + n1 + n2) as nat)),
            },
        },
    }
}

pub proof fn lemma_view_response_roundtrip(m: ViewResponseView, r: Seq<u8>)
    requires
        view_response_fits(m),
    ensures
        parse_view_response(enc_view_response(m) + r) == Some((m, enc_view_response(m).len())),
{
    let e0 = enc_u64(m.view_number);
    let e1 = enc_u64(m.node_id);
    let e2 = enc_bytes(m.signature);
    let s = enc_view_response(m) + r;
    assert(parse_u64(e0 + (e1 + e2 + r)) == Some((m.view_number, e0.len()))) by {
        lemma_u64_roundtrip(m.view_number, e1 + e2 + r);
    }
    assert(s == e0 + (e1 + e2 + r)) by { assert(s =~= e0 + (e1 + e2 + r)); }
    assert(parse_u64(e1 + (e2 + r)) == Some((m.node_id, e1.len()))) by {
        lemma_u64_roundtrip(m.node_id, e2 + r);
    }
    assert(s.skip(e0.len() as int) == e1 + (e2 + r)) by { assert(s.skip(e0.len() as int) =~= e1 + (e2 + r)); }
    assert(parse_bytes(e2 + (r)) == Some((m.signature, e2.len()))) by {
        lemma_bytes_roundtrip(m.signature, r);
    }
    assert(s.skip(e0.len() + e1.len() as int) == e2 + (r)) by { assert(s.skip(e0.len() + e1.len() as int) =~= e2 + (r)); }
}

pub proof fn lemma_view_response_sound(s: Seq<u8>)
    ensures
        parse_view_response(s) matches Some((m, n)) ==> n == enc_view_response(m).len() && starts_with(s, enc_view_response(m)) && view_response_fits(m),
{
    if let Some((m, n)) = parse_view_response(s) {
        lemma_u64_sound(s);
        let (_, n0) = parse_u64(s).unwrap();
        lemma_u64_sound(s.skip((n0) as int));
        let (_, n1) = parse_u64(s.skip((n0) as int)).unwrap();
        lemma_bytes_sound(s.skip((n0 + n1) as int));
        let (_, n2) = parse_bytes(s.skip((n0 + n1) as int)).unwrap();
        assert(s.take(n as int) =~= s.take(n0 as int) + s.skip((n0) as int).take(n1 as int) + s.skip((n0 + n1) as int).take(n2 as int));
    }
}

fn write_view_response(out: &mut Vec<u8>, m: &ViewResponse)
    ensures
        final(out)@ == old(out)@ + enc_view_response(m@),
{
    let ghost start = out@;
    write_u64(out, m.view_number);
    write_u64(out, m.node_id);
    write_bytes(out, m.signature.as_slice());
    assert(out@ =~= start + enc_view_response(m@));
}

fn read_view_response(buf: &[u8], pos: usize) -> (res: Option<(ViewResponse, usize)>)
    requires
        pos <= buf@.len(),
    ensures
        match res {
            Some((m, p)) => p <= buf@.len() && pos <= p && parse_view_response(rest_of(buf@, pos as int)) == Some((m@, (p - pos) as nat)),
            None => parse_view_response(rest_of(buf@, pos as int)) is None,
        },
{
    let ghost s = rest_of(buf@, pos as int);
    let (view_number, p0) = match read_u64(buf, pos) {
        None => return None,
        Some(r) => r,
    };
    assert(rest_of(buf@, p0 as int) =~= s.skip(p0 - pos));
    let (node_id, p1) = match read_u64(buf, p0) {
        None => return None,
        Some(r) => r,
    };
    assert(rest_of(buf@, p1 as int) =~= s.skip(p1 - pos));
    let (signature, p2) = match read_bytes(buf, p1) {
        None => return None,
        Some(r) => r,
    };
    assert(rest_of(buf@, p2 as int) =~= s.skip(p2 - pos));
    Some((ViewResponse { view_number, node_id, signature }, p2))
}

/// The bytes in which a `ViewResponse` is sent and signed.
pub fn encode_view_response(m: &ViewResponse) -> (res: Vec<u8>)
    ensures
        res@ == enc_view_response(m@),
{
    let mut out: Vec<u8> = Vec::new();
    write_view_response(&mut out, m);
    assert(out@ =~= enc_view_response(m@));
    out
}

/// Reads a `ViewResponse` back from the front of `bytes`; what follows it is ignored.
pub fn decode_view_response(bytes: &[u8]) -> (res: Option<ViewResponse>)
    ensures
        match res {
            Some(m) => starts_with(bytes@, enc_view_response(m@)) && forall|v: ViewResponseView|
                view_response_fits(v) && starts_with(bytes@, #[trigger] enc_view_response(v)) ==> v == m@,
            None => forall|v: ViewResponseView| view_response_fits(v) ==> !starts_with(bytes@, #[trigger] enc_view_response(v)),
        },
        res is None <==> parse_view_response(bytes@) is None,
        res matches Some(m) ==> (parse_view_response(bytes@) matches Some((v, _)) && v == m@),
{
    let res = read_view_response(bytes, 0);
    proof {
        assert(rest_of(bytes@, 0) =~= bytes@);
        lemma_view_response_sound(bytes@);
        assert forall|v: ViewResponseView| view_response_fits(v) && starts_with(bytes@, #[trigger] enc_view_response(v)) implies parse_view_response(bytes@) == Some((v, enc_view_response(v).len())) by {
            let r = bytes@.skip(enc_view_response(v).len() as int);
            assert(bytes@ =~= enc_view_response(v) + r);
            lemma_view_response_roundtrip(v, r);
        }
    }
    match res {
        Some((m, _)) => Some(m),
        None => None,
    }
}

/// `StateRequest` in bytes: its fields in order.
pub open spec fn enc_state_request(m: StateRequestView) -> Seq<u8> {
    Seq::empty()
}

/// Every list of a `StateRequest` is short enough for its length to be written.
pub open spec fn state_request_fits(m: StateRequestView) -> bool {
    true
}

pub open spec fn parse_state_request(s: Seq<u8>) -> Option<(StateRequestView, nat)> {
    Some((StateRequestView {  }, 0nat))
}

pub proof fn lemma_state_request_roundtrip(m: StateRequestView, r: Seq<u8>)
    requires
        state_request_fits(m),
    ensures
        parse_state_request(enc_state_request(m) + r) == Some((m, enc_state_request(m).len())),
{
    assert(enc_state_request(m) + r =~= r);
}

pub proof fn lemma_state_request_sound(s: Seq<u8>)
    ensures
        parse_state_request(s) matches Some((m, n)) ==> n == enc_state_request(m).len() && starts_with(s, enc_state_request(m)) && state_request_fits(m),
{
    if let Some((m, n)) = parse_state_request(s) {
        assert(s.take(0) =~= enc_state_request(m));
    }
}

fn write_state_request(out: &mut Vec<u8>, m: &StateRequest)
    ensures
        final(out)@ == old(out)@ + enc_state_request(m@),
{
    let ghost start = out@;
    assert(out@ =~= start + enc_state_request(m@));
}

fn read_state_request(buf: &[u8], pos: usize) -> (res: Option<(StateRequest, usize)>)
    requires
        pos <= buf@.len(),
    ensures
        match res {
            Some((m, p)) => p <= buf@.len() && pos <= p && parse_state_request(rest_of(buf@, pos as int)) == Some((m@, (p - pos) as nat)),
            None => parse_state_request(rest_of(buf@, pos as int)) is None,
        },
{
    let ghost s = rest_of(buf@, pos as int);
    Some((StateRequest {  }, pos))
}

/// The bytes in which a `StateRequest` is sent and signed.
pub fn encode_state_request(m: &StateRequest) -> (res: Vec<u8>)
    ensures
        res@ == enc_state_request(m@),
{
    let mut out: Vec<u8> = Vec::new();
    write_state_request(&mut out, m);
    assert(out@ =~= enc_state_request(m@));
    out
}

/// Reads a `StateRequest` back from the front of `bytes`; what follows it is ignored.
pub fn decode_state_request(bytes: &[u8]) -> (res: Option<StateRequest>)
    ensures
        match res {
            Some(m) => starts_with(bytes@, enc_state_request(m@)) && forall|v: StateRequestView|
                state_request_fits(v) && starts_with(bytes@, #[trigger] enc_state_request(v)) ==> v == m@,
            None => forall|v: StateRequestView| state_request_fits(v) ==> !starts_with(bytes@, #[trigger] enc_state_request(v)),
        },
        res is None <==> parse_state_request(bytes@) is None,
        res matches Some(m) ==> (parse_state_request(bytes@) matches Some((v, _)) && v == m@),
{
    let res = read_state_request(bytes, 0);
    proof {
        assert(rest_of(bytes@, 0) =~= bytes@);
        lemma_state_request_sound(bytes@);
        assert forall|v: StateRequestView| state_request_fits(v) && starts_with(bytes@, #[trigger] enc_state_request(v)) implies parse_state_request(bytes@) == Some((v, enc_state_request(v).len())) by {
            let r = bytes@.skip(enc_state_request(v).len() as int);
            assert(bytes@ =~= enc_state_request(v) + r);
            lemma_state_request_roundtrip(v, r);
        }
    }
    match res {
        Some((m, _)) => Some(m),
        None => None,
    }
}

/// `StateResponse` in bytes: its fields in order.
pub open spec fn enc_state_response(m: StateResponseView) -> Seq<u8> {
    enc_u64(m.sequence_number) + enc_bytes(m.signature)
}

/// Every list of a `StateResponse` is short enough for its length to be written.
pub open spec fn state_response_fits(m: StateResponseView) -> bool {
    m.signature.len() <= u64::MAX
}

pub open spec fn parse_state_response(s: Seq<u8>) -> Option<(StateResponseView, nat)> {
    match parse_u64(s) {
        None => None,
        Some((sequence_number, n0)) =>
        match parse_bytes(s.skip((n0) as int)) {
            None => None,
            Some((signature, n1)) =>
                Some((StateResponseView { sequence_number, signature }, (n0 + n1) as nat)),
        },
    }
}

pub proof fn lemma_state_response_roundtrip(m: StateResponseView, r: Seq<u8>)
    requires
        state_response_fits(m),
    ensures
        parse_state_response(enc_state_response(m) + r) == Some((m, enc_state_response(m).len())),
{
    let e0 = enc_u64(m.sequence_number);
    let e1 = enc_bytes(m.signature);
    let s = enc_state_response(m) + r;
    assert(parse_u64(e0 + (e1 + r)) == Some((m.sequence_number, e0.len()))) by {
        lemma_u64_roundtrip(m.sequence_number, e1 + r);
    }
    assert(s == e0 + (e1 + r)) by { assert(s =~= e0 + (e1 + r)); }
    assert(parse_bytes(e1 + (r)) == Some((m.signature, e1.len()))) by {
        lemma_bytes_roundtrip(m.signature, r);
    }
    assert(s.skip(e0.len() as int) == e1 + (r)) by { assert(s.skip(e0.len() as int) =~= e1 + (r)); }
}

pub proof fn lemma_state_response_sound(s: Seq<u8>)
    ensures
        parse_state_response(s) matches Some((m, n)) ==> n == enc_state_response(m).len() && starts_with(s, enc_state_response(m)) && state_response_fits(m),
{
    if let Some((m, n)) = parse_state_response(s) {
        lemma_u64_sound(s);
        let (_, n0) = parse_u64(s).unwrap();
        lemma_bytes_sound(s.skip((n0) as int));
        let (_, n1) = parse_bytes(s.skip((n0) as int)).unwrap();
        assert(s.take(n as int) =~= s.take(n0 as int) + s.skip((n0) as int).take(n1 as int));
    }
}

fn write_state_response(out: &mut Vec<u8>, m: &StateResponse)
    ensures
        final(out)@ == old(out)@ + enc_state_response(m@),
{
    let ghost start = out@;
    write_u64(out, m.sequence_number);
    write_bytes(out, m.signature.as_slice());
    assert(out@ =~= start + enc_state_response(m@));
}

fn read_state_response(buf: &[u8], pos: usize) -> (res: Option<(StateResponse, usize)>)
    requires
        pos <= buf@.len(),
    ensures
        match res {
            Some((m, p)) => p <= buf@.len() && pos <= p && parse_state_response(rest_of(buf@, pos as int)) == Some((m@, (p - pos) as nat)),
            None => parse_state_response(rest_of(buf@, pos as int)) is None,
        },
{
    let ghost s = rest_of(buf@, pos as int);
    let (sequence_number, p0) = match read_u64(buf, pos) {
        None => return None,
        Some(r) => r,
    };
    assert(rest_of(buf@, p0 as int) =~= s.skip(p0 - pos));
    let (signature, p1) = match read_bytes(buf, p0) {
        None => return None,
        Some(r) => r,
    };
    assert(rest_of(buf@, p1 as int) =~= s.skip(p1 - pos));
    Some((StateResponse { sequence_number, signature }, p1))
}

/// The bytes in which a `StateResponse` is sent and signed.
pub fn encode_state_response(m: &StateResponse) -> (res: Vec<u8>)
    ensures
        res@ == enc_state_response(m@),
{
    let mut out: Vec<u8> = Vec::new();
    write_state_response(&mut out, m);
    assert(out@ =~= enc_state_response(m@));
    out
}

/// Reads a `StateResponse` back from the front of `bytes`; what follows it is ignored.
pub fn decode_state_response(bytes: &[u8]) -> (res: Option<StateResponse>)
    ensures
        match res {
            Some(m) => starts_with(bytes@, enc_state_response(m@)) && forall|v: StateResponseView|
                state_response_fits(v) && starts_with(bytes@, #[trigger] enc_state_response(v)) ==> v == m@,
            None => forall|v: StateResponseView| state_response_fits(v) ==> !starts_with(bytes@, #[trigger] enc_state_response(v)),
        },
        res is None <==> parse_state_response(bytes@) is None,
        res matches Some(m) ==> (parse_state_response(bytes@) matches Some((v, _)) && v == m@),
{
    let res = read_state_response(bytes, 0);
    proof {
        assert(rest_of(bytes@, 0) =~= bytes@);
        lemma_state_response_sound(bytes@);
        assert forall|v: StateResponseView| state_response_fits(v) && starts_with(bytes@, #[trigger] enc_state_response(v)) implies parse_state_response(bytes@) == Some((v, enc_state_response(v).len())) by {
            let r = bytes@.skip(enc_state_response(v).len() as int);
            assert(bytes@ =~= enc_state_response(v) + r);
            lemma_state_response_roundtrip(v, r);
        }
    }
    match res {
        Some((m, _)) => Some(m),
        None => None,
    }
}

/// `SyncRequest` in bytes: its fields in order.
pub open spec fn enc_sync_request(m: SyncRequestView) -> Seq<u8> {
    enc_u64(m.from_index) + enc_u64(m.to_index)
}

/// Every list of a `SyncRequest` is short enough for its length to be written.
pub open spec fn sync_request_fits(m: SyncRequestView) -> bool {
    true
}

pub open spec fn parse_sync_request(s: Seq<u8>) -> Option<(SyncRequestView, nat)> {
    match parse_u64(s) {
        None => None,
        Some((from_index, n0)) =>
        match parse_u64(s.skip((n0) as int)) {
            None => None,
            Some((to_index, n1)) =>
                Some((SyncRequestView { from_index, to_index }, (n0 + n1) as nat)),
        },
    }
}

pub proof fn lemma_sync_request_roundtrip(m: SyncRequestView, r: Seq<u8>)
    requires
        sync_request_fits(m),
    ensures
        parse_sync_request(enc_sync_request(m) + r) == Some((m, enc_sync_request(m).len())),
{
    let e0 = enc_u64(m.from_index);
    let e1 = enc_u64(m.to_index);
    let s = enc_sync_request(m) + r;
    assert(parse_u64(e0 + (e1 + r)) == Some((m.from_index, e0.len()))) by {
        lemma_u64_roundtrip(m.from_index, e1 + r);
    }
    assert(s == e0 + (e1 + r)) by { assert(s =~= e0 + (e1 + r)); }
    assert(parse_u64(e1 + (r)) == Some((m.to_index, e1.len()))) by {
        lemma_u64_roundtrip(m.to_index, r);
    }
    assert(s.skip(e0.len() as int) == e1 + (r)) by { assert(s.skip(e0.len() as int) =~= e1 + (r)); }
}

pub proof fn lemma_sync_request_sound(s: Seq<u8>)
    ensures
        parse_sync_request(s) matches Some((m, n)) ==> n == enc_sync_request(m).len() && starts_with(s, enc_sync_request(m)) && sync_request_fits(m),
{
    if let Some((m, n)) = parse_sync_request(s) {
        lemma_u64_sound(s);
        let (_, n0) = parse_u64(s).unwrap();
        lemma_u64_sound(s.skip((n0) as int));
        let (_, n1) = parse_u64(s.skip((n0) as int)).unwrap();
        assert(s.take(n as int) =~= s.take(n0 as int) + s.skip((n0) as int).take(n1 as int));
    }
}

fn write_sync_request(out: &mut Vec<u8>, m: &SyncRequest)
    ensures
        final(out)@ == old(out)@ + enc_sync_request(m@),
{
    let ghost start = out@;
    write_u64(out, m.from_index);
    write_u64(out, m.to_index);
    assert(out@ =~= start + enc_sync_request(m@));
}

fn read_sync_request(buf: &[u8], pos: usize) -> (res: Option<(SyncRequest, usize)>)
    requires
        pos <= buf@.len(),
    ensures
        match res {
            Some((m, p)) => p <= buf@.len() && pos <= p && parse_sync_request(rest_of(buf@, pos as int)) == Some((m@, (p - pos) as nat)),
            None => parse_sync_request(rest_of(buf@, pos as int)) is None,
        },
{
    let ghost s = rest_of(buf@, pos as int);
    let (from_index, p0) = match read_u64(buf, pos) {
        None => return None,
        Some(r) => r,
    };
    assert(rest_of(buf@, p0 as int) =~= s.skip(p0 - pos));
    let (to_index, p1) = match read_u64(buf, p0) {
        None => return None,
        Some(r) => r,
    };
    assert(rest_of(buf@, p1 as int) =~= s.skip(p1 - pos));
    Some((SyncRequest { from_index, to_index }, p1))
}

/// The bytes in which a `SyncRequest` is sent and signed.
pub fn encode_sync_request(m: &SyncRequest) -> (res: Vec<u8>)
    ensures
        res@ == enc_sync_request(m@),
{
    let mut out: Vec<u8> = Vec::new();
    write_sync_request(&mut out, m);
    assert(out@ =~= enc_sync_request(m@));
    out
}

/// Reads a `SyncRequest` back from the front of `bytes`; what follows it is ignored.
pub fn decode_sync_request(bytes: &[u8]) -> (res: Option<SyncRequest>)
    ensures
        match res {
            Some(m) => starts_with(bytes@, enc_sync_request(m@)) && forall|v: SyncRequestView|
                sync_request_fits(v) && starts_with(bytes@, #[trigger] enc_sync_request(v)) ==> v == m@,
            None => forall|v: SyncRequestView| sync_request_fits(v) ==> !starts_with(bytes@, #[trigger] enc_sync_request(v)),
        },
        res is None <==> parse_sync_request(bytes@) is None,
        res matches Some(m) ==> (parse_sync_request(bytes@) matches Some((v, _)) && v == m@),
{
    let res = read_sync_request(bytes, 0);
    proof {
        assert(rest_of(bytes@, 0) =~= bytes@);
        lemma_sync_request_sound(bytes@);
        assert forall|v: SyncRequestView| sync_request_fits(v) && starts_with(bytes@, #[trigger] enc_sync_request(v)) implies parse_sync_request(bytes@) == Some((v, enc_sync_request(v).len())) by {
            let r = bytes@.skip(enc_sync_request(v).len() as int);
            assert(bytes@ =~= enc_sync_request(v) + r);
            lemma_sync_request_roundtrip(v, r);
        }
    }
    match res {
        Some((m, _)) => Some(m),
        None => None,
    }
}

/// `SyncResponse` in bytes: its fields in order.
pub open spec fn enc_sync_response(m: SyncResponseView) -> Seq<u8> {
    enc_list(m.blocks, block_encoder()) + enc_bytes(m.signature)
}

/// Every list of a `SyncResponse` is short enough for its length to be written.
pub open spec fn sync_response_fits(m: SyncResponseView) -> bool {
    (m.blocks.len() <= u64::MAX && forall|i: int| 0 <= i < m.blocks.len() ==> block_fits(#[trigger] m.blocks[i])) && m.signature.len() <= u64::MAX
}

pub open spec fn parse_sync_response(s: Seq<u8>) -> Option<(SyncResponseView, nat)> {
    match parse_list(s, block_parser()) {
        None => None,
        Some((blocks, n0)) =>
        match parse_bytes(s.skip((n0) as int)) {
            None => None,
            Some((signature, n1)) =>
                Some((SyncResponseView { blocks, signature }, (n0 + n1) as nat)),
        },
    }
}

pub proof fn lemma_sync_response_roundtrip(m: SyncResponseView, r: Seq<u8>)
    requires
        sync_response_fits(m),
    ensures
        parse_sync_response(enc_sync_response(m) + r) == Some((m, enc_sync_response(m).len())),
{
    let e0 = enc_list(m.blocks, block_encoder());
    let e1 = enc_bytes(m.signature);
    let s = enc_sync_response(m) + r;
    assert(parse_list(e0 + (e1 + r), block_parser()) == Some((m.blocks, e0.len()))) by {
        lemma_block_codec();
        lemma_list_roundtrip(m.blocks, e1 + r, block_encoder(), block_parser(), fitting_block());
    }
    assert(s == e0 + (e1 + r)) by { assert(s =~= e0 + (e1 + r)); }
    assert(parse_bytes(e1 + (r)) == Some((m.signature, e1.len()))) by {
        lemma_bytes_roundtrip(m.signature, r);
    }
    assert(s.skip(e0.len() as int) == e1 + (r)) by { assert(s.skip(e0.len() as int) =~= e1 + (r)); }
}

pub proof fn lemma_sync_response_sound(s: Seq<u8>)
    ensures
        parse_sync_response(s) matches Some((m, n)) ==> n == enc_sync_response(m).len() && starts_with(s, enc_sync_response(m)) && sync_response_fits(m),
{
    if let Some((m, n)) = parse_sync_response(s) {
        lemma_block_codec();
        lemma_list_sound(s, block_encoder(), block_parser(), fitting_block());
        let (_, n0) = parse_list(s, block_parser()).unwrap();
        lemma_bytes_sound(s.skip((n0) as int));
        let (_, n1) = parse_bytes(s.skip((n0) as int)).unwrap();
        assert(s.take(n as int) =~= s.take(n0 as int) + s.skip((n0) as int).take(n1 as int));
    }
}

fn write_sync_response(out: &mut Vec<u8>, m: &SyncResponse)
    ensures
        final(out)@ == old(out)@ + enc_sync_response(m@),
{
    let ghost start = out@;
    write_blocks(out, &m.blocks);
    write_bytes(out, m.signature.as_slice());
    assert(out@ =~= start + enc_sync_response(m@));
}

fn read_sync_response(buf: &[u8], pos: usize) -> (res: Option<(SyncResponse, usize)>)
    requires
        pos <= buf@.len(),
    ensures
        match res {
            Some((m, p)) => p <= buf@.len() && pos <= p && parse_sync_response(rest_of(buf@, pos as int)) == Some((m@, (p - pos) as nat)),
            None => parse_sync_response(rest_of(buf@, pos as int)) is None,
        },
{
    let ghost s = rest_of(buf@, pos as int);
    let (blocks, p0) = match read_blocks(buf, pos) {
        None => return None,
        Some(r) => r,
    };
    assert(rest_of(buf@, p0 as int) =~= s.skip(p0 - pos));
    let (signature, p1) = match read_bytes(buf, p0) {
        None => return None,
        Some(r) => r,
    };
    assert(rest_of(buf@, p1 as int) =~= s.skip(p1 - pos));
    Some((SyncResponse { blocks, signature }, p1))
}

/// The bytes in which a `SyncResponse` is sent and signed.
pub fn encode_sync_response(m: &SyncResponse) -> (res: Vec<u8>)
    ensures
        res@ == enc_sync_response(m@),
{
    let mut out: Vec<u8> = Vec::new();
    write_sync_response(&mut out, m);
    assert(out@ =~= enc_sync_response(m@));
    out
}

/// Reads a `SyncResponse` back from the front of `bytes`; what follows it is ignored.
pub fn decode_sync_response(bytes: &[u8]) -> (res: Option<SyncResponse>)
    ensures
        match res {
            Some(m) => starts_with(bytes@, enc_sync_response(m@)) && forall|v: SyncResponseView|
                sync_response_fits(v) && starts_with(bytes@, #[trigger] enc_sync_response(v)) ==> v == m@,
            None => forall|v: SyncResponseView| sync_response_fits(v) ==> !starts_with(bytes@, #[trigger] enc_sync_response(v)),
        },
        res is None <==> parse_sync_response(bytes@) is None,
        res matches Some(m) ==> (parse_sync_response(bytes@) matches Some((v, _)) && v == m@),
{
    let res = read_sync_response(bytes, 0);
    proof {
        assert(rest_of(bytes@, 0) =~= bytes@);
        lemma_sync_response_sound(bytes@);
        assert forall|v: SyncResponseView| sync_response_fits(v) && starts_with(bytes@, #[trigger] enc_sync_response(v)) implies parse_sync_response(bytes@) == Some((v, enc_sync_response(v).len())) by {
            let r = bytes@.skip(enc_sync_response(v).len() as int);
            assert(bytes@ =~= enc_sync_response(v) + r);
            lemma_sync_response_roundtrip(v, r);
        }
    }
    match res {
        Some((m, _)) => Some(m),
        None => None,
    }
}

} // verus!
