//! Blocks, their byte format, and the rules of the block store.
use crate::utils::{block_hash, calculate_block_hash, get_current_timestamp};
use vstd::bytes::{
    lemma_auto_spec_u64_to_from_le_bytes, spec_u64_from_le_bytes, spec_u64_to_le_bytes,
    u64_from_le_bytes,
};
use crate::codec::{
    enc_bytes, enc_items, enc_list, enc_u32, enc_u64, inverts, lemma_bytes_roundtrip, lemma_bytes_sound,
    lemma_items_fail_more, lemma_items_push, lemma_items_step, lemma_list_roundtrip, lemma_list_sound,
    lemma_u32_roundtrip, lemma_u32_sound, lemma_u64_roundtrip, lemma_u64_sound, parse_bytes,
    parse_items, parse_list, parse_u32, parse_u64, read_bytes, read_u32, read_u64, rest_of, sound,
    starts_with, write_bytes, write_u32, write_u64,
};
use crate::database::{pair_views, written, KeyValueStore};
use vstd::prelude::*;

verus! {

/// A transaction of the chain.
#[derive(Debug, Clone, Copy, PartialEq, Eq, Structural)]
pub enum Transaction {
    Tx0,
    Tx1,
    Tx2,
}

/// A block of the chain.
#[derive(Debug, Clone)]
pub struct Block {
    pub index: u64,
    pub timestamp: u64,
    pub transactions: Vec<Transaction>,
    pub previous_hash: Vec<u8>,
    pub hash: Vec<u8>,
}

/// What a block holds.
pub struct BlockView {
    pub index: u64,
    pub timestamp: u64,
    pub transactions: Seq<Transaction>,
    pub previous_hash: Seq<u8>,
    pub hash: Seq<u8>,
}

impl View for Block {
    type V = BlockView;

    open spec fn view(&self) -> BlockView {
        BlockView {
            index: self.index,
            timestamp: self.timestamp,
            transactions: self.transactions@,
            previous_hash: self.previous_hash@,
            hash: self.hash@,
        }
    }
}

// ---------------------------------------------------------------------------
// Byte format
// ---------------------------------------------------------------------------
/// The index of a transaction's variant.
pub open spec fn transaction_tag(t: Transaction) -> u32 {
    match t {
        Transaction::Tx0 => 0,
        Transaction::Tx1 => 1,
        Transaction::Tx2 => 2,
    }
}

pub open spec fn enc_transaction(t: Transaction) -> Seq<u8> {
    enc_u32(transaction_tag(t))
}

pub open spec fn parse_transaction(s: Seq<u8>) -> Option<(Transaction, nat)> {
    match parse_u32(s) {
        None => None,
        Some((tag, n)) => if tag == 0 {
            Some((Transaction::Tx0, n))
        } else if tag == 1 {
            Some((Transaction::Tx1, n))
        } else if tag == 2 {
            Some((Transaction::Tx2, n))
        } else {
            None
        },
    }
}

pub open spec fn transaction_encoder() -> spec_fn(Transaction) -> Seq<u8> {
    |t: Transaction| enc_transaction(t)
}

pub open spec fn transaction_parser() -> spec_fn(Seq<u8>) -> Option<(Transaction, nat)> {
    |s: Seq<u8>| parse_transaction(s)
}

pub open spec fn any_transaction() -> spec_fn(Transaction) -> bool {
    |t: Transaction| true
}

pub open spec fn enc_transactions(txs: Seq<Transaction>) -> Seq<u8> {
    enc_list(txs, transaction_encoder())
}

/// A block in bytes: index, timestamp, transactions, previous hash, hash.
pub open spec fn enc_block(b: BlockView) -> Seq<u8> {
    enc_u64(b.index) + enc_u64(b.timestamp) + enc_transactions(b.transactions) + enc_bytes(
        b.previous_hash,
    ) + enc_bytes(b.hash)
}

/// A block whose lists are short enough for their lengths to be written.
pub open spec fn block_fits(b: BlockView) -> bool {
    &&& b.transactions.len() <= u64::MAX
    &&& b.previous_hash.len() <= u64::MAX
    &&& b.hash.len() <= u64::MAX
}

pub open spec fn parse_block(s: Seq<u8>) -> Option<(BlockView, nat)> {
    match parse_u64(s) {
        None => None,
        Some((index, _)) => match parse_u64(s.skip(8)) {
            None => None,
            Some((timestamp, _)) => match parse_list(s.skip(16), transaction_parser()) {
                None => None,
                Some((transactions, n1)) => match parse_bytes(s.skip((16 + n1) as int)) {
                    None => None,
                    Some((previous_hash, n2)) => match parse_bytes(s.skip((16 + n1 + n2) as int)) {
                        None => None,
                        Some((hash, n3)) => Some(
                            (
                                BlockView {
                                    index,
                                    timestamp,
                                    transactions,
                                    previous_hash,
                                    hash,
                                },
                                (16 + n1 + n2 + n3) as nat,
                            ),
                        ),
                    },
                },
            },
        },
    }
}

pub open spec fn block_encoder() -> spec_fn(BlockView) -> Seq<u8> {
    |b: BlockView| enc_block(b)
}

pub open spec fn block_parser() -> spec_fn(Seq<u8>) -> Option<(BlockView, nat)> {
    |s: Seq<u8>| parse_block(s)
}

pub open spec fn fitting_block() -> spec_fn(BlockView) -> bool {
    |b: BlockView| block_fits(b)
}

pub proof fn lemma_transaction_codec()
    ensures
        inverts(transaction_encoder(), transaction_parser(), any_transaction()),
        sound(transaction_encoder(), transaction_parser(), any_transaction()),
{
    assert forall|t: Transaction, r: Seq<u8>|
        any_transaction()(t) implies #[trigger] transaction_parser()(transaction_encoder()(t) + r)
        == Some((t, transaction_encoder()(t).len())) by {
        lemma_u32_roundtrip(transaction_tag(t), r);
    }
    assert forall|s: Seq<u8>|
        (#[trigger] transaction_parser()(s) matches Some((t, n)) ==> n
            == transaction_encoder()(t).len() && starts_with(s, transaction_encoder()(t))
            && any_transaction()(t)) by {
        lemma_u32_sound(s);
    }
}

pub proof fn lemma_transaction_roundtrip(t: Transaction, r: Seq<u8>)
    ensures
        parse_transaction(enc_transaction(t) + r) == Some((t, enc_transaction(t).len())),
{
    lemma_u32_roundtrip(transaction_tag(t), r);
}

pub proof fn lemma_transaction_sound(s: Seq<u8>)
    ensures
        parse_transaction(s) matches Some((t, n)) ==> n == enc_transaction(t).len() && starts_with(
            s,
            enc_transaction(t),
        ),
{
    lemma_u32_sound(s);
}

pub proof fn lemma_block_roundtrip(b: BlockView, r: Seq<u8>)
    requires
        block_fits(b),
    ensures
        parse_block(enc_block(b) + r) == Some((b, enc_block(b).len())),
{
    let e1 = enc_u64(b.index);
    let e2 = enc_u64(b.timestamp);
    let e3 = enc_transactions(b.transactions);
    let e4 = enc_bytes(b.previous_hash);
    let e5 = enc_bytes(b.hash);
    let s = enc_block(b) + r;
    lemma_u64_roundtrip(b.index, e2 + e3 + e4 + e5 + r);
    assert(s =~= e1 + (e2 + e3 + e4 + e5 + r));
    lemma_u64_roundtrip(b.timestamp, e3 + e4 + e5 + r);
    assert(s.skip(8) =~= e2 + (e3 + e4 + e5 + r));
    lemma_transaction_codec();
    lemma_list_roundtrip(
        b.transactions,
        e4 + e5 + r,
        transaction_encoder(),
        transaction_parser(),
        any_transaction(),
    );
    assert(s.skip(16) =~= e3 + (e4 + e5 + r));
    lemma_bytes_roundtrip(b.previous_hash, e5 + r);
    assert(s.skip(16 + e3.len() as int) =~= e4 + (e5 + r));
    lemma_bytes_roundtrip(b.hash, r);
    assert(s.skip(16 + e3.len() + e4.len() as int) =~= e5 + r);
}

pub proof fn lemma_block_sound(s: Seq<u8>)
    ensures
        parse_block(s) matches Some((b, n)) ==> n == enc_block(b).len() && starts_with(
            s,
            enc_block(b),
        ) && block_fits(b),
{
    if let Some((b, n)) = parse_block(s) {
        lemma_u64_sound(s);
        lemma_u64_sound(s.skip(8));
        lemma_transaction_codec();
        lemma_list_sound(s.skip(16), transaction_encoder(), transaction_parser(), any_transaction());
        let (_, n1) = parse_list(s.skip(16), transaction_parser()).unwrap();
        lemma_bytes_sound(s.skip((16 + n1) as int));
        let (_, n2) = parse_bytes(s.skip((16 + n1) as int)).unwrap();
        lemma_bytes_sound(s.skip((16 + n1 + n2) as int));
        let (_, n3) = parse_bytes(s.skip((16 + n1 + n2) as int)).unwrap();
        assert(s.take(8) =~= s.skip(0).take(8));
        assert(s.take(n as int) =~= s.take(8) + s.skip(8).take(8) + s.skip(16).take(n1 as int)
            + s.skip((16 + n1) as int).take(n2 as int) + s.skip((16 + n1 + n2) as int).take(n3 as int));
    }
}

pub proof fn lemma_block_codec()
    ensures
        inverts(block_encoder(), block_parser(), fitting_block()),
        sound(block_encoder(), block_parser(), fitting_block()),
{
    assert forall|b: BlockView, r: Seq<u8>|
        fitting_block()(b) implies #[trigger] block_parser()(block_encoder()(b) + r) == Some(
        (b, block_encoder()(b).len()),
    ) by {
        lemma_block_roundtrip(b, r);
    }
    assert forall|s: Seq<u8>|
        (#[trigger] block_parser()(s) matches Some((b, n)) ==> n == block_encoder()(b).len()
            && starts_with(s, block_encoder()(b)) && fitting_block()(b)) by {
        lemma_block_sound(s);
    }
}

pub(crate) fn write_transaction(out: &mut Vec<u8>, t: Transaction)
    ensures
        final(out)@ == old(out)@ + enc_transaction(t),
{
    let tag: u32 = match t {
        Transaction::Tx0 => 0,
        Transaction::Tx1 => 1,
        Transaction::Tx2 => 2,
    };
    write_u32(out, tag);
}

pub(crate) fn write_transactions(out: &mut Vec<u8>, txs: &Vec<Transaction>)
    ensures
        final(out)@ == old(out)@ + enc_transactions(txs@),
{
    let ghost start = out@;
    write_u64(out, txs.len() as u64);
    let mut i: usize = 0;
    while i < txs.len()
        invariant
            i <= txs@.len(),
            out@ == start + enc_u64(txs@.len() as u64) + enc_items(
                txs@.take(i as int),
                transaction_encoder(),
            ),
        decreases txs@.len() - i,
    {
        proof {
            lemma_items_push(txs@.take(i as int), txs@[i as int], transaction_encoder());
            assert(txs@.take(i as int).push(txs@[i as int]) =~= txs@.take(i + 1));
        }
        write_transaction(out, txs[i]);
        i = i + 1;
    }
    assert(txs@.take(txs@.len() as int) =~= txs@);
}

pub(crate) fn read_transaction(buf: &[u8], pos: usize) -> (res: Option<(Transaction, usize)>)
    requires
        pos <= buf@.len(),
    ensures
        match res {
            Some((t, p)) => p <= buf@.len() && pos <= p && parse_transaction(
                rest_of(buf@, pos as int),
            ) == Some((t, (p - pos) as nat)),
            None => parse_transaction(rest_of(buf@, pos as int)) is None,
        },
{
    match read_u32(buf, pos) {
        None => None,
        Some((tag, p)) => if tag == 0 {
            Some((Transaction::Tx0, p))
        } else if tag == 1 {
            Some((Transaction::Tx1, p))
        } else if tag == 2 {
            Some((Transaction::Tx2, p))
        } else {
            None
        },
    }
}

pub(crate) fn read_transactions(buf: &[u8], pos: usize) -> (res: Option<(Vec<Transaction>, usize)>)
    requires
        pos <= buf@.len(),
    ensures
        match res {
            Some((txs, p)) => p <= buf@.len() && pos <= p && parse_list(
                rest_of(buf@, pos as int),
                transaction_parser(),
            ) == Some((txs@, (p - pos) as nat)),
            None => parse_list(rest_of(buf@, pos as int), transaction_parser()) is None,
        },
{
    let ghost s = rest_of(buf@, pos as int);
    match read_u64(buf, pos) {
        None => None,
        Some((count, p0)) => {
            let ghost body = rest_of(buf@, p0 as int);
            assert(body =~= s.skip(8));
            let mut items: Vec<Transaction> = Vec::new();
            let mut p = p0;
            let mut i: u64 = 0;
            while i < count
                invariant
                    p0 <= p <= buf@.len(),
                    p0 == pos + 8,
                    i <= count,
                    body == rest_of(buf@, p0 as int),
                    s == rest_of(buf@, pos as int),
                    parse_u64(s) == Some((count, 8nat)),
                    s.skip(8) == body,
                    parse_items(body, i as nat, transaction_parser()) == Some(
                        (items@, (p - p0) as nat),
                    ),
                decreases count - i,
            {
                proof {
                    lemma_items_step(body, i as nat, transaction_parser());
                    assert(body.skip(p - p0) =~= rest_of(buf@, p as int));
                }
                match read_transaction(buf, p) {
                    None => {
                        proof {
                            assert(transaction_parser()(body.skip(p - p0)) is None);
                            lemma_items_fail_more(
                                body,
                                (i + 1) as nat,
                                count as nat,
                                transaction_parser(),
                            );
                        }
                        return None;
                    },
                    Some((t, p2)) => {
                        items.push(t);
                        p = p2;
                        i = i + 1;
                    },
                }
            }
            Some((items, p))
        },
    }
}

pub(crate) fn write_block(out: &mut Vec<u8>, b: &Block)
    ensures
        final(out)@ == old(out)@ + enc_block(b@),
{
    write_u64(out, b.index);
    write_u64(out, b.timestamp);
    write_transactions(out, &b.transactions);
    write_bytes(out, b.previous_hash.as_slice());
    write_bytes(out, b.hash.as_slice());
}

pub(crate) fn read_block(buf: &[u8], pos: usize) -> (res: Option<(Block, usize)>)
    requires
        pos <= buf@.len(),
    ensures
        match res {
            Some((b, p)) => p <= buf@.len() && pos <= p && parse_block(rest_of(buf@, pos as int))
                == Some((b@, (p - pos) as nat)),
            None => parse_block(rest_of(buf@, pos as int)) is None,
        },
{
    let ghost s = rest_of(buf@, pos as int);
    let (index, p1) = match read_u64(buf, pos) {
        None => return None,
        Some(r) => r,
    };
    assert(rest_of(buf@, p1 as int) =~= s.skip(8));
    let (timestamp, p2) = match read_u64(buf, p1) {
        None => return None,
        Some(r) => r,
    };
    assert(rest_of(buf@, p2 as int) =~= s.skip(16));
    let (transactions, p3) = match read_transactions(buf, p2) {
        None => return None,
        Some(r) => r,
    };
    assert(rest_of(buf@, p3 as int) =~= s.skip(16 + (p3 - p2)));
    let (previous_hash, p4) = match read_bytes(buf, p3) {
        None => return None,
        Some(r) => r,
    };
    assert(rest_of(buf@, p4 as int) =~= s.skip(16 + (p3 - p2) + (p4 - p3)));
    let (hash, p5) = match read_bytes(buf, p4) {
        None => return None,
        Some(r) => r,
    };
    Some((Block { index, timestamp, transactions, previous_hash, hash }, p5))
}

/// The bytes in which a block is stored and sent.
pub fn encode_block(b: &Block) -> (res: Vec<u8>)
    ensures
        res@ == enc_block(b@),
{
    let mut out: Vec<u8> = Vec::new();
    write_block(&mut out, b);
    assert(out@ =~= enc_block(b@));
    out
}

/// Reads a block back from the front of `bytes`; what follows it is ignored.
pub fn decode_block(bytes: &[u8]) -> (res: Option<Block>)
    ensures
        match res {
            Some(b) => starts_with(bytes@, enc_block(b@)) && (parse_block(bytes@) matches Some((v, _))
                && v == b@),
            None => parse_block(bytes@) is None && forall|v: BlockView|
                block_fits(v) ==> !starts_with(bytes@, #[trigger] enc_block(v)),
        },
{
    let res = read_block(bytes, 0);
    proof {
        assert(rest_of(bytes@, 0) =~= bytes@);
        lemma_block_sound(bytes@);
    }
    match res {
        Some((b, _)) => Some(b),
        None => {
            assert forall|v: BlockView| block_fits(v) implies !starts_with(
                bytes@,
                #[trigger] enc_block(v),
            ) by {
                if starts_with(bytes@, enc_block(v)) {
                    let r = bytes@.skip(enc_block(v).len() as int);
                    assert(bytes@ =~= enc_block(v) + r);
                    lemma_block_roundtrip(v, r);
                }
            }
            None
        },
    }
}

// ---------------------------------------------------------------------------
// The store
// ---------------------------------------------------------------------------
/// Operations on the chain of blocks.
pub trait BlockStore {
    /// Appends `block` when it follows the last block; any other block is ignored.
    fn put_block(&mut self, block: &Block) -> Result<(), String>;

    /// The block with the given index, if stored.
    fn get_block_by_index(&self, index: u64) -> Result<Option<Block>, String>;

    /// The last block of the chain.
    fn get_last_block(&self) -> Result<Option<Block>, String>;

    /// The blocks stored from `begin_index` on, up to `end_index`.
    fn get_blocks_in_range(&self, begin_index: u64, end_index: u64) -> Result<
        Option<Vec<Block>>,
        String,
    >;

    /// A new block that follows the last block and holds `operations`.
    fn create_block(&self, operations: &Vec<Transaction>) -> Result<Block, String>;
}

/// The views of a list of blocks.
pub open spec fn block_views(v: Seq<Block>) -> Seq<BlockView> {
    v.map_values(|b: Block| b@)
}

/// The key under which the index of the last block is kept.
pub open spec fn last_block_index_key() -> Seq<u8> {
    seq![108u8, 97, 115, 116, 95, 98, 108, 111, 99, 107, 95, 105, 110, 100, 101, 120]
}

/// The key of a block: its index in eight little-endian bytes.
pub open spec fn block_key(index: u64) -> Seq<u8> {
    enc_u64(index)
}

/// The text `last_block_index` in bytes.
pub fn last_block_index_key_bytes() -> (res: Vec<u8>)
    ensures
        res@ == last_block_index_key(),
{
    let res: Vec<u8> = vec![108u8, 97, 115, 116, 95, 98, 108, 111, 99, 107, 95, 105, 110, 100, 101, 120];
    assert(res@ =~= last_block_index_key());
    res
}

/// The key under which the block with the given index is kept.
pub fn block_key_bytes(index: u64) -> (res: Vec<u8>)
    ensures
        res@ == block_key(index),
{
    let mut res: Vec<u8> = Vec::new();
    write_u64(&mut res, index);
    assert(res@ =~= block_key(index));
    res
}

/// The two writes that append a block: the block under its key, and its
/// index as the index of the last block.
pub fn block_writes(block: &Block) -> (res: Vec<(Vec<u8>, Vec<u8>)>)
    ensures
        pair_views(res@) == block_write_views(block@),
{
    let mut res: Vec<(Vec<u8>, Vec<u8>)> = Vec::new();
    res.push((block_key_bytes(block.index), encode_block(block)));
    res.push((last_block_index_key_bytes(), block_key_bytes(block.index)));
    assert(pair_views(res@) =~= block_write_views(block@));
    res
}

/// Whether two byte strings are equal.
pub fn bytes_equal(a: &[u8], b: &[u8]) -> (res: bool)
    ensures
        res == (a@ == b@),
{
    if a.len() != b.len() {
        return false;
    }
    let mut i: usize = 0;
    while i < a.len()
        invariant
            a@.len() == b@.len(),
            i <= a@.len(),
            a@.take(i as int) == b@.take(i as int),
        decreases a@.len() - i,
    {
        if a[i] != b[i] {
            assert(a@[i as int] != b@[i as int]);
            return false;
        }
        i = i + 1;
        assert(a@.take(i as int) =~= a@.take(i - 1).push(a@[i - 1]));
        assert(b@.take(i as int) =~= b@.take(i - 1).push(b@[i - 1]));
    }
    assert(a@ =~= a@.take(a@.len() as int));
    assert(b@ =~= b@.take(b@.len() as int));
    true
}

/// `block` may follow `last` in the chain: its index is the next one and it
/// names `last`'s hash as the previous hash.
pub open spec fn follows(last: BlockView, block: BlockView) -> bool {
    last.index + 1 == block.index && last.hash == block.previous_hash
}

/// Whether `block` may follow `last` in the chain.
pub fn accepts_next(last: &Block, block: &Block) -> (res: bool)
    ensures
        res == follows(last@, block@),
{
    last.index < u64::MAX && last.index + 1 == block.index && bytes_equal(
        last.hash.as_slice(),
        block.previous_hash.as_slice(),
    )
}

/// The first block of every chain: index 0, no transactions, empty hashes.
pub fn genesis_block(timestamp: u64) -> (b: Block)
    ensures
        b.index == 0,
        b.timestamp == timestamp,
        b.transactions@ == Seq::<Transaction>::empty(),
        b.previous_hash@ == Seq::<u8>::empty(),
        b.hash@ == Seq::<u8>::empty(),
{
    Block {
        index: 0,
        timestamp,
        transactions: Vec::new(),
        previous_hash: Vec::new(),
        hash: Vec::new(),
    }
}

/// The block that follows `last` with the given transactions and timestamp:
/// the next index, `last`'s hash as previous hash, and its own hash.
pub open spec fn block_after(last: BlockView, transactions: Seq<Transaction>, timestamp: u64) -> BlockView {
    let index = (last.index + 1) as u64;
    BlockView {
        index,
        timestamp,
        transactions,
        previous_hash: last.hash,
        hash: block_hash(index, timestamp, transactions, last.hash),
    }
}

/// The block that follows `last` with the given transactions and timestamp;
/// `None` where `last` has the greatest index there is.
pub fn create_block_after(last: &Block, transactions: &Vec<Transaction>, timestamp: u64) -> (res:
    Option<Block>)
    ensures
        match res {
            Some(b) => last.index < u64::MAX && b@ == block_after(last@, transactions@, timestamp),
            None => last.index == u64::MAX,
        },
{
    if last.index == u64::MAX {
        return None;
    }
    let index = last.index + 1;
    let previous_hash = copy_bytes(&last.hash);
    let hash = match calculate_block_hash(index, timestamp, transactions, previous_hash.as_slice()) {
        Ok(h) => h,
        Err(_) => return None,
    };
    Some(Block { index, timestamp, transactions: copy_transactions(transactions), previous_hash, hash })
}

/// A copy of a byte string.
pub fn copy_bytes(v: &Vec<u8>) -> (res: Vec<u8>)
    ensures
        res@ == v@,
{
    let mut res: Vec<u8> = Vec::new();
    let mut i: usize = 0;
    while i < v.len()
        invariant
            i <= v@.len(),
            res@ == v@.take(i as int),
        decreases v@.len() - i,
    {
        res.push(v[i]);
        i = i + 1;
        assert(v@.take(i as int) =~= v@.take(i - 1).push(v@[i - 1]));
    }
    assert(v@.take(v@.len() as int) =~= v@);
    res
}

/// A copy of a list of transactions.
pub fn copy_transactions(v: &Vec<Transaction>) -> (res: Vec<Transaction>)
    ensures
        res@ == v@,
{
    let mut res: Vec<Transaction> = Vec::new();
    let mut i: usize = 0;
    while i < v.len()
        invariant
            i <= v@.len(),
            res@ == v@.take(i as int),
        decreases v@.len() - i,
    {
        res.push(v[i]);
        i = i + 1;
        assert(v@.take(i as int) =~= v@.take(i - 1).push(v@[i - 1]));
    }
    assert(v@.take(v@.len() as int) =~= v@);
    res
}

/// The index of the last block, read from its stored eight bytes.
pub fn decode_last_index(bytes: &[u8]) -> (res: Option<u64>)
    ensures
        match res {
            Some(i) => bytes@ == enc_u64(i),
            None => bytes@.len() != 8,
        },
{
    if bytes.len() == 8 {
        let i = u64_from_le_bytes(bytes);
        proof {
            lemma_auto_spec_u64_to_from_le_bytes();
            assert(spec_u64_to_le_bytes(spec_u64_from_le_bytes(bytes@)) == bytes@);
        }
        Some(i)
    } else {
        None
    }
}

/// The two writes that append a block, as byte strings.
pub open spec fn block_write_views(b: BlockView) -> Seq<(Seq<u8>, Seq<u8>)> {
    seq![(block_key(b.index), enc_block(b)), (last_block_index_key(), enc_u64(b.index))]
}

/// What a database holds under a block's key: `Some(None)` where nothing is
/// stored there, `None` where the bytes stored there are no block.
pub open spec fn block_at(c: Map<Seq<u8>, Seq<u8>>, index: u64) -> Option<Option<BlockView>> {
    if c.contains_key(block_key(index)) {
        match parse_block(c[block_key(index)]) {
            Some((b, _)) => Some(Some(b)),
            None => None,
        }
    } else {
        Some(None)
    }
}

/// The last block that a database names: `Some(None)` where it names none,
/// `None` where what it holds cannot be read.
pub open spec fn last_block(c: Map<Seq<u8>, Seq<u8>>) -> Option<Option<BlockView>> {
    if c.contains_key(last_block_index_key()) {
        let v = c[last_block_index_key()];
        if v.len() == 8 {
            block_at(c, spec_u64_from_le_bytes(v))
        } else {
            None
        }
    } else {
        Some(None)
    }
}

/// What a database holds after `block` is put: the block is appended where it
/// follows the last block, and nothing changes otherwise.
pub open spec fn after_put(c: Map<Seq<u8>, Seq<u8>>, block: BlockView) -> Map<Seq<u8>, Seq<u8>> {
    match last_block(c) {
        Some(Some(last)) => if follows(last, block) {
            written(c, block_write_views(block))
        } else {
            c
        },
        _ => c,
    }
}

/// How many blocks a range query from `begin` to `end` reads, where the last
/// block's index is `last`: those from `begin` up to `end` or `last`,
/// whichever comes first.
pub open spec fn range_count(begin: u64, end: u64, last: u64) -> nat {
    let hi = if end <= last {
        end
    } else {
        last
    };
    if begin <= hi {
        (hi - begin + 1) as nat
    } else {
        0
    }
}

/// The blocks a database holds at `count` indexes from `from` on.
pub open spec fn stored_blocks(c: Map<Seq<u8>, Seq<u8>>, from: u64, count: nat) -> Seq<BlockView> {
    Seq::new(count, |j: int| block_at(c, (from + j) as u64).unwrap().unwrap())
}

/// A range query from `begin` to `end` is owed an answer: the last block is
/// stored, and so is every block it asks for.
pub open spec fn range_stored(c: Map<Seq<u8>, Seq<u8>>, begin: u64, end: u64) -> bool {
    &&& last_block(c) matches Some(Some(last))
    &&& forall|i: u64|
        begin <= i < begin + range_count(begin, end, last.index) ==> (#[trigger] block_at(c, i) matches Some(
            Some(_),
        ))
}

/// The view of an optional block.
pub open spec fn block_view_opt(b: Option<Block>) -> Option<BlockView> {
    match b {
        Some(b) => Some(b@),
        None => None,
    }
}

/// The genesis block stamped with `timestamp`.
pub open spec fn genesis_view(timestamp: u64) -> BlockView {
    BlockView {
        index: 0,
        timestamp,
        transactions: Seq::empty(),
        previous_hash: Seq::empty(),
        hash: Seq::empty(),
    }
}

/// The index that a database names as its last block's.
pub open spec fn last_index(c: Map<Seq<u8>, Seq<u8>>) -> u64 {
    spec_u64_from_le_bytes(c[last_block_index_key()])
}

/// The chain in a database is whole: it names its last block's index, every
/// block up to that index is stored under its own index, and each one after
/// the first follows the one before it.
pub open spec fn chain_linked(c: Map<Seq<u8>, Seq<u8>>) -> bool {
    &&& c.contains_key(last_block_index_key())
    &&& c[last_block_index_key()].len() == 8
    &&& forall|i: u64|
        #![trigger block_at(c, i)]
        i <= last_index(c) ==> (block_at(c, i) matches Some(Some(b)) && b.index == i && (i > 0 ==> (
        block_at(c, (i - 1) as u64) matches Some(Some(p)) && follows(p, b))))
}

/// The database after the two writes that append `b`.
proof fn lemma_block_writes(c: Map<Seq<u8>, Seq<u8>>, b: BlockView)
    ensures
        written(c, block_write_views(b)) == c.insert(block_key(b.index), enc_block(b)).insert(
            last_block_index_key(),
            enc_u64(b.index),
        ),
{
    let w = block_write_views(b);
    let w1 = w.drop_last();
    assert(w1.drop_last() =~= Seq::<(Seq<u8>, Seq<u8>)>::empty());
    assert(w1.last() == w[0]);
    assert(written(c, w1.drop_last()) == c);
    assert(written(c, w1) == c.insert(w[0].0, w[0].1));
    assert(written(c, w) == written(c, w1).insert(w[1].0, w[1].1));
}

/// Block keys are eight bytes long and tell indexes apart; the key of the
/// last index is none of them.
proof fn lemma_block_keys(i: u64, j: u64)
    ensures
        block_key(i).len() == 8,
        last_block_index_key().len() == 16,
        block_key(i) != last_block_index_key(),
        block_key(i) == block_key(j) ==> i == j,
        spec_u64_from_le_bytes(enc_u64(i)) == i,
{
    lemma_auto_spec_u64_to_from_le_bytes();
    if block_key(i) == block_key(j) {
        assert(spec_u64_from_le_bytes(block_key(i)) == spec_u64_from_le_bytes(block_key(j)));
    }
}

/// A block's lists are short enough for their lengths to be written.
pub(crate) fn block_fits_exec(b: &Block)
    ensures
        block_fits(b@),
{
    let _transactions = b.transactions.len();
    let _previous_hash = b.previous_hash.len();
    let _hash = b.hash.len();
}

/// Putting a block leaves a readable last block readable.
pub proof fn lemma_put_keeps_last(c: Map<Seq<u8>, Seq<u8>>, block: BlockView)
    requires
        block_fits(block),
    ensures
        (last_block(c) matches Some(Some(_))) ==> (last_block(after_put(c, block)) matches Some(Some(_))),
{
    if let Some(Some(last)) = last_block(c) {
        if follows(last, block) {
            law_put_block_reads_back(c, block);
        }
    }
}

/// A block put after the last block is what the store then reads back, both
/// under its index and as the last block.
pub proof fn law_put_block_reads_back(c: Map<Seq<u8>, Seq<u8>>, block: BlockView)
    requires
        last_block(c) matches Some(Some(last)) && follows(last, block),
        block_fits(block),
    ensures
        block_at(after_put(c, block), block.index) == Some(Some(block)),
        last_block(after_put(c, block)) == Some(Some(block)),
{
    lemma_block_writes(c, block);
    lemma_block_keys(block.index, block.index);
    lemma_block_roundtrip(block, Seq::empty());
    assert(enc_block(block) + Seq::<u8>::empty() =~= enc_block(block));
}

/// Putting a block keeps the chain whole: a block that follows the last one
/// extends it, and any other leaves it as it was.
pub proof fn law_put_keeps_chain(c: Map<Seq<u8>, Seq<u8>>, block: BlockView)
    requires
        chain_linked(c),
        block_fits(block),
    ensures
        chain_linked(after_put(c, block)),
{
    let k = last_index(c);
    assert(block_at(c, k) matches Some(Some(b)) && b.index == k);
    let last = block_at(c, k).unwrap().unwrap();
    assert(last_block(c) == Some(Some(last)));
    if follows(last, block) {
        let c2 = after_put(c, block);
        lemma_block_writes(c, block);
        lemma_block_keys(block.index, block.index);
        lemma_block_roundtrip(block, Seq::empty());
        assert(enc_block(block) + Seq::<u8>::empty() =~= enc_block(block));
        assert(last_index(c2) == block.index);
        assert forall|i: u64| #![trigger block_at(c2, i)] i <= last_index(c2) implies (block_at(
            c2,
            i,
        ) matches Some(Some(b)) && b.index == i && (i > 0 ==> (block_at(c2, (i - 1) as u64) matches Some(
            Some(p),
        ) && follows(p, b)))) by {
            lemma_block_keys(i, block.index);
            lemma_block_keys((i - 1) as u64, block.index);
            if i < block.index {
                assert(block_at(c2, i) == block_at(c, i));
                if i > 0 {
                    assert(block_at(c2, (i - 1) as u64) == block_at(c, (i - 1) as u64));
                }
            } else {
                assert(block_at(c2, i) == Some(Some(block)));
                assert(block_at(c2, (i - 1) as u64) == block_at(c, k));
            }
        }
    }
}

/// A database that holds just the genesis block's writes holds a whole chain
/// of one block.
pub proof fn law_genesis_starts_chain(c: Map<Seq<u8>, Seq<u8>>, timestamp: u64)
    ensures
        chain_linked(written(c, block_write_views(genesis_view(timestamp)))),
        last_block(written(c, block_write_views(genesis_view(timestamp)))) == Some(
            Some(genesis_view(timestamp)),
        ),
{
    let g = genesis_view(timestamp);
    let c2 = written(c, block_write_views(g));
    lemma_block_writes(c, g);
    lemma_block_keys(0, 0);
    lemma_block_roundtrip(g, Seq::empty());
    assert(enc_block(g) + Seq::<u8>::empty() =~= enc_block(g));
    assert(block_at(c2, 0) == Some(Some(g)));
    assert forall|i: u64| #![trigger block_at(c2, i)] i <= last_index(c2) implies (block_at(c2, i) matches Some(
        Some(b),
    ) && b.index == i && (i > 0 ==> (block_at(c2, (i - 1) as u64) matches Some(Some(p)) && follows(
        p,
        b,
    )))) by {
        assert(i == 0);
    }
}

/// A block store kept in a key-value database: each block under its index,
/// and the index of the last block under `last_block_index`.
pub struct RocksDBBlockStore<D> {
    pub db: D,
}

impl<D: KeyValueStore> RocksDBBlockStore<D> {
    /// Opens the store on a database, writing the genesis block, stamped
    /// with the current time, where the database names no last block.
    pub fn new(db: D) -> (res: Result<Self, String>)
        ensures
            db.never_fails() && db.contents().contains_key(last_block_index_key()) ==> res is Ok,
            res matches Ok(store) ==> store.db.never_fails() == db.never_fails(),
            res matches Ok(store) ==> if db.contents().contains_key(last_block_index_key()) {
                store.db.contents() == db.contents()
            } else {
                exists|t: u64| store.db.contents() == written(db.contents(), block_write_views(#[trigger] genesis_view(t)))
            },
    {
        let mut db = db;
        let key = last_block_index_key_bytes();
        let found = match db.get(key.as_slice()) {
            Ok(v) => v,
            Err(e) => return Err(e),
        };
        if found.is_none() {
            let timestamp = match get_current_timestamp() {
                Ok(t) => t,
                Err(e) => return Err(e),
            };
            let genesis = genesis_block(timestamp);
            assert(genesis@ == genesis_view(timestamp));
            match db.write_batch(block_writes(&genesis)) {
                Ok(()) => {},
                Err(e) => return Err(e),
            }
        }
        Ok(RocksDBBlockStore { db })
    }
}

impl<D: KeyValueStore> BlockStore for RocksDBBlockStore<D> {
    fn put_block(&mut self, block: &Block) -> (res: Result<(), String>)
        ensures
            res is Ok ==> (last_block(old(self).db.contents()) matches Some(Some(_))
                && final(self).db.contents() == after_put(old(self).db.contents(), block@)),
            res is Err ==> final(self).db.contents() == old(self).db.contents(),
            last_block(old(self).db.contents()) matches Some(None) ==> res is Err,
            old(self).db.never_fails() && (last_block(old(self).db.contents()) matches Some(Some(_)))
                ==> res is Ok,
            final(self).db.never_fails() == old(self).db.never_fails(),
    {
        match self.get_last_block() {
            Err(e) => Err(e),
            Ok(Some(last)) => {
                if accepts_next(&last, block) {
                    self.db.write_batch(block_writes(block))
                } else {
                    Ok(())
                }
            },
            Ok(None) => Err("缺失创世区块".to_string()),
        }
    }

    fn get_block_by_index(&self, index: u64) -> (res: Result<Option<Block>, String>)
        ensures
            res matches Ok(found) ==> block_at(self.db.contents(), index) == Some(block_view_opt(found)),
            block_at(self.db.contents(), index) is None ==> res is Err,
            self.db.never_fails() && block_at(self.db.contents(), index) is Some ==> res is Ok,
    {
        let key = block_key_bytes(index);
        match self.db.get(key.as_slice()) {
            Err(e) => Err(e),
            Ok(None) => Ok(None),
            Ok(Some(value)) => match decode_block(value.as_slice()) {
                Some(b) => Ok(Some(b)),
                None => Err("a stored block cannot be read".to_string()),
            },
        }
    }

    fn get_last_block(&self) -> (res: Result<Option<Block>, String>)
        ensures
            res matches Ok(found) ==> last_block(self.db.contents()) == Some(block_view_opt(found)),
            last_block(self.db.contents()) is None ==> res is Err,
            self.db.never_fails() && last_block(self.db.contents()) is Some ==> res is Ok,
    {
        let key = last_block_index_key_bytes();
        match self.db.get(key.as_slice()) {
            Err(e) => Err(e),
            Ok(None) => Ok(None),
            Ok(Some(value)) => match decode_last_index(value.as_slice()) {
                Some(index) => {
                    proof {
                        lemma_auto_spec_u64_to_from_le_bytes();
                    }
                    self.get_block_by_index(index)
                },
                None => Err("the stored last index cannot be read".to_string()),
            },
        }
    }

    fn get_blocks_in_range(&self, begin_index: u64, end_index: u64) -> (res: Result<
        Option<Vec<Block>>,
        String,
    >)
        ensures
            res matches Ok(found) ==> (last_block(self.db.contents()) matches Some(Some(last))
                && found matches Some(blocks) && block_views(blocks@) == stored_blocks(
                self.db.contents(),
                begin_index,
                range_count(begin_index, end_index, last.index),
            )),
            !(last_block(self.db.contents()) matches Some(Some(_))) ==> res is Err,
            self.db.never_fails() && range_stored(self.db.contents(), begin_index, end_index) ==> res is Ok,
    {
        let ghost c = self.db.contents();
        let last = match self.get_last_block() {
            Ok(Some(b)) => b,
            Ok(None) => return Err("缺失创世区块".to_string()),
            Err(e) => return Err(e),
        };
        let to = if end_index <= last.index {
            end_index
        } else {
            last.index
        };
        let ghost count = range_count(begin_index, end_index, last.index);
        let mut blocks: Vec<Block> = Vec::new();
        if begin_index <= to {
            let mut i = begin_index;
            loop
                invariant_except_break
                    begin_index <= i <= to,
                    blocks@.len() == i - begin_index,
                invariant
                    c == self.db.contents(),
                    last_block(c) == Some(Some(last@)),
                    count == to - begin_index + 1,
                    self.db.never_fails() && range_stored(c, begin_index, end_index) ==> forall|
                        k: u64,
                    | begin_index <= k <= to ==> (#[trigger] block_at(c, k) matches Some(Some(_))),
                    forall|j: int|
                        0 <= j < blocks@.len() ==> block_at(c, (begin_index + j) as u64) == Some(
                            Some(#[trigger] blocks@[j]@),
                        ),
                ensures
                    blocks@.len() == to - begin_index + 1,
                decreases to - i,
            {
                let block = match self.get_block_by_index(i) {
                    Ok(Some(b)) => b,
                    Ok(None) => return Err("区间查询无区块".to_string()),
                    Err(e) => return Err(e),
                };
                assert(block_at(c, (begin_index + (i - begin_index)) as u64) == Some(Some(block@)));
                blocks.push(block);
                if i == to {
                    break;
                }
                i = i + 1;
            }
        }
        proof {
            assert(blocks@.len() == count);
            assert(block_views(blocks@) =~= stored_blocks(c, begin_index, count));
        }
        Ok(Some(blocks))
    }

    fn create_block(&self, transactions: &Vec<Transaction>) -> (res: Result<Block, String>)
        ensures
            res matches Ok(b) ==> (last_block(self.db.contents()) matches Some(Some(last))
                && b@ == block_after(last, transactions@, b.timestamp)),
            last_block(self.db.contents()) matches Some(None) ==> res is Err,
    {
        match self.get_last_block() {
            Err(e) => Err(e),
            Ok(None) => Err("缺失创世区块".to_string()),
            Ok(Some(last)) => {
                let timestamp = match get_current_timestamp() {
                    Ok(t) => t,
                    Err(e) => return Err(e),
                };
                match create_block_after(&last, transactions, timestamp) {
                    Some(b) => Ok(b),
                    None => Err("the chain is full".to_string()),
                }
            },
        }
    }
}

/// A block created after the last block is one that the store appends after it.
pub proof fn law_created_block_follows(
    last: BlockView,
    transactions: Seq<Transaction>,
    timestamp: u64,
)
    requires
        last.index < u64::MAX,
    ensures
        follows(last, block_after(last, transactions, timestamp)),
{
}

} // verus!
