use new_pbft::message::{
    Commit, Hearbeat, MessageType, NewView, PrePrepare, Prepare, Reply, Request, StateRequest,
    StateResponse, SyncRequest, SyncResponse, ViewChange, ViewRequest, ViewResponse,
};
use new_pbft::network::{frame_message, split_frame};
use new_pbft::store::{decode_block, encode_block, Block, Transaction};
use new_pbft::wire::{
    decode_commit, decode_hearbeat, decode_new_view, decode_prepare, decode_preprepare,
    decode_reply, decode_request, decode_state_request, decode_state_response,
    decode_sync_request, decode_sync_response, decode_view_change, decode_view_request,
    decode_view_response, encode_commit, encode_hearbeat, encode_new_view, encode_prepare,
    encode_preprepare, encode_reply, encode_request, encode_state_request, encode_state_response,
    encode_sync_request, encode_sync_response, encode_view_change, encode_view_request,
    encode_view_response,
};

fn tag(t: &Transaction) -> u32 {
    match t {
        Transaction::Tx0 => 0,
        Transaction::Tx1 => 1,
        Transaction::Tx2 => 2,
    }
}

fn sample_block() -> Block {
    Block {
        index: 7,
        timestamp: 1_700_000_000,
        transactions: vec![Transaction::Tx0, Transaction::Tx2, Transaction::Tx1],
        previous_hash: vec![1, 2, 3],
        hash: vec![9; 32],
    }
}

fn block_tuple(b: &Block) -> (u64, u64, Vec<u32>, Vec<u8>, Vec<u8>) {
    (
        b.index,
        b.timestamp,
        b.transactions.iter().map(tag).collect(),
        b.previous_hash.clone(),
        b.hash.clone(),
    )
}

fn sample_request(n: u64) -> Request {
    Request { transaction: Transaction::Tx1, timestamp: 100 + n, node_id: n, signature: vec![n as u8, 5, 6] }
}

fn request_tuple(r: &Request) -> (u32, u64, u64, Vec<u8>) {
    (tag(&r.transaction), r.timestamp, r.node_id, r.signature.clone())
}

#[test]
fn block_bytes_match_bincode() {
    let b = sample_block();
    assert_eq!(encode_block(&b), bincode::serialize(&block_tuple(&b)).unwrap());
}

#[test]
fn block_roundtrip_ignores_trailing_bytes() {
    let b = sample_block();
    let mut bytes = encode_block(&b);
    bytes.extend_from_slice(&[0xaa, 0xbb]);
    let back = decode_block(&bytes).unwrap();
    assert_eq!(block_tuple(&back), block_tuple(&b));
}

#[test]
fn truncated_block_is_refused() {
    let bytes = encode_block(&sample_block());
    for cut in 0..bytes.len() {
        assert!(decode_block(&bytes[..cut]).is_none(), "prefix of length {}", cut);
    }
}

#[test]
fn unknown_transaction_tag_is_refused() {
    let mut bytes = encode_block(&sample_block());
    // the first transaction's tag starts after index, timestamp and the list length
    bytes[24] = 3;
    assert!(decode_block(&bytes).is_none());
}

#[test]
fn request_bytes_match_bincode() {
    let r = sample_request(2);
    let bytes = encode_request(&r);
    assert_eq!(bytes, bincode::serialize(&request_tuple(&r)).unwrap());
    assert_eq!(request_tuple(&decode_request(&bytes).unwrap()), request_tuple(&r));
}

#[test]
fn preprepare_bytes_match_bincode() {
    let m = PrePrepare {
        view_number: 3,
        sequence_number: 4,
        digest: vec![7; 32],
        node_id: 3,
        signature: vec![1, 1],
        requests: vec![sample_request(0), sample_request(1)],
        block: sample_block(),
    };
    let tuple = (
        m.view_number,
        m.sequence_number,
        m.digest.clone(),
        m.node_id,
        m.signature.clone(),
        m.requests.iter().map(request_tuple).collect::<Vec<_>>(),
        block_tuple(&m.block),
    );
    let bytes = encode_preprepare(&m);
    assert_eq!(bytes, bincode::serialize(&tuple).unwrap());
    let back = decode_preprepare(&bytes).unwrap();
    assert_eq!(back.requests.len(), 2);
    assert_eq!(request_tuple(&back.requests[1]), request_tuple(&m.requests[1]));
    assert_eq!(block_tuple(&back.block), block_tuple(&m.block));
    assert_eq!(back.digest, m.digest);
}

#[test]
fn prepare_and_commit_bytes_match_bincode() {
    let p = Prepare { view_number: 1, sequence_number: 2, digest: vec![3, 4], node_id: 5, signature: vec![6] };
    let tuple = (1u64, 2u64, vec![3u8, 4], 5u64, vec![6u8]);
    assert_eq!(encode_prepare(&p), bincode::serialize(&tuple).unwrap());
    let back = decode_prepare(&encode_prepare(&p)).unwrap();
    assert_eq!((back.view_number, back.sequence_number, back.digest, back.node_id, back.signature), tuple);
    let c = Commit { view_number: 1, sequence_number: 2, digest: vec![3, 4], node_id: 5, signature: vec![6] };
    assert_eq!(encode_commit(&c), bincode::serialize(&tuple).unwrap());
    let back = decode_commit(&encode_commit(&c)).unwrap();
    assert_eq!((back.view_number, back.sequence_number, back.digest, back.node_id, back.signature), tuple);
}

#[test]
fn reply_bytes_match_bincode() {
    let r = Reply {
        view_number: 1,
        timestamp: 2,
        client_id: 3,
        node_id: 4,
        result: "résultat ✓".to_string(),
        signature: vec![8, 9],
    };
    let tuple = (1u64, 2u64, 3u64, 4u64, r.result.clone(), vec![8u8, 9]);
    let bytes = encode_reply(&r);
    assert_eq!(bytes, bincode::serialize(&tuple).unwrap());
    let back = decode_reply(&bytes).unwrap();
    assert_eq!(back.result, r.result);
    assert_eq!(back.signature, r.signature);
}

#[test]
fn reply_with_invalid_utf8_is_refused() {
    let mut bytes = bincode::serialize(&(1u64, 2u64, 3u64, 4u64)).unwrap();
    bytes.extend_from_slice(&bincode::serialize(&vec![0xffu8, 0xfe]).unwrap());
    bytes.extend_from_slice(&bincode::serialize(&Vec::<u8>::new()).unwrap());
    assert!(decode_reply(&bytes).is_none());
}

#[test]
fn small_messages_match_bincode() {
    let h = Hearbeat { view_number: 9, sequence_number: 8, node_id: 7, signature: vec![6, 5] };
    let t = (9u64, 8u64, 7u64, vec![6u8, 5]);
    assert_eq!(encode_hearbeat(&h), bincode::serialize(&t).unwrap());
    let back = decode_hearbeat(&encode_hearbeat(&h)).unwrap();
    assert_eq!((back.view_number, back.sequence_number, back.node_id, back.signature), t);

    let n = NewView { view_number: 9, sequence_number: 8, node_id: 7, signature: vec![6, 5] };
    assert_eq!(encode_new_view(&n), bincode::serialize(&t).unwrap());
    let back = decode_new_view(&encode_new_view(&n)).unwrap();
    assert_eq!((back.view_number, back.sequence_number, back.node_id, back.signature), t);

    let v = ViewChange { view_number: 1, sequence_number: 2, node_id: 3, new_view_number: 4, signature: vec![5] };
    let vt = (1u64, 2u64, 3u64, 4u64, vec![5u8]);
    assert_eq!(encode_view_change(&v), bincode::serialize(&vt).unwrap());
    let back = decode_view_change(&encode_view_change(&v)).unwrap();
    assert_eq!((back.view_number, back.sequence_number, back.node_id, back.new_view_number, back.signature), vt);

    let r = ViewResponse { view_number: 5, node_id: 1, signature: vec![2] };
    let rt = (5u64, 1u64, vec![2u8]);
    assert_eq!(encode_view_response(&r), bincode::serialize(&rt).unwrap());
    let back = decode_view_response(&encode_view_response(&r)).unwrap();
    assert_eq!((back.view_number, back.node_id, back.signature), rt);

    let s = StateResponse { sequence_number: 12, signature: vec![1, 2, 3] };
    let st = (12u64, vec![1u8, 2, 3]);
    assert_eq!(encode_state_response(&s), bincode::serialize(&st).unwrap());
    let back = decode_state_response(&encode_state_response(&s)).unwrap();
    assert_eq!((back.sequence_number, back.signature), st);

    let q = SyncRequest { from_index: 3, to_index: 9 };
    assert_eq!(encode_sync_request(&q), bincode::serialize(&(3u64, 9u64)).unwrap());
    let back = decode_sync_request(&encode_sync_request(&q)).unwrap();
    assert_eq!((back.from_index, back.to_index), (3, 9));
}

#[test]
fn empty_messages_have_no_bytes() {
    assert!(encode_view_request(&ViewRequest {}).is_empty());
    assert!(encode_state_request(&StateRequest {}).is_empty());
    assert!(decode_view_request(&[]).is_some());
    assert!(decode_state_request(&[1, 2]).is_some());
}

#[test]
fn sync_response_bytes_match_bincode() {
    let m = SyncResponse { blocks: vec![sample_block(), sample_block()], signature: vec![4] };
    let tuple = (m.blocks.iter().map(block_tuple).collect::<Vec<_>>(), vec![4u8]);
    let bytes = encode_sync_response(&m);
    assert_eq!(bytes, bincode::serialize(&tuple).unwrap());
    let back = decode_sync_response(&bytes).unwrap();
    assert_eq!(back.blocks.len(), 2);
    assert_eq!(block_tuple(&back.blocks[0]), block_tuple(&m.blocks[0]));
}

#[test]
fn list_longer_than_its_bytes_is_refused() {
    // a sync response that claims a million blocks but holds none
    let bytes = bincode::serialize(&(1_000_000u64,)).unwrap();
    assert!(decode_sync_response(&bytes).is_none());
}

#[test]
fn frame_roundtrip() {
    let content = vec![1u8, 2, 3];
    let frame = frame_message(MessageType::Commit, &content);
    assert_eq!(frame, vec![3, 1, 2, 3]);
    let (t, c) = split_frame(&frame).unwrap();
    assert_eq!(t, MessageType::Commit);
    assert_eq!(c, &content[..]);
}

#[test]
fn message_type_numbers() {
    let all = [
        MessageType::Request,
        MessageType::PrePrepare,
        MessageType::Prepare,
        MessageType::Commit,
        MessageType::Reply,
        MessageType::Hearbeat,
        MessageType::ViewChange,
        MessageType::NewView,
        MessageType::ViewRequest,
        MessageType::ViewResponse,
        MessageType::StateRequest,
        MessageType::StateResponse,
        MessageType::SyncRequest,
        MessageType::SyncResponse,
    ];
    for (i, t) in all.iter().enumerate() {
        assert_eq!(t.to_byte() as usize, i);
        assert_eq!(MessageType::from_byte(i as u8), Some(*t));
    }
    assert_eq!(MessageType::Unknown.to_byte(), 20);
    assert_eq!(MessageType::from_byte(20), None);
    assert_eq!(MessageType::from_byte(14), None);
}

#[test]
fn unknown_or_empty_frame_is_refused() {
    assert!(split_frame(&[]).is_none());
    assert!(split_frame(&[14, 0]).is_none());
    assert!(split_frame(&[20]).is_none());
}
