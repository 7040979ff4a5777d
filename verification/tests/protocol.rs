use new_pbft::client::Client;
use new_pbft::config::{ConstantConfig, Identity, VariableConfig};
use new_pbft::key::{
    sign_data, sign_prepare, sign_request, verify_prepare, verify_request, verify_signature,
};
use new_pbft::message::{
    commit_handler, view_change_handler, hearbeat_handler, new_view_handler, prepare_handler, preprepare_handler,
    request_handler, state_response_handler, sync_request_handler, sync_response_handler,
    view_request_handler, view_response_handler, Action, Commit, Hearbeat, MessageType, NewView,
    Prepare, Request, StateResponse, SyncRequest, Target, ViewRequest, ViewResponse,
};
use new_pbft::network::frame_message;
use new_pbft::pbft::{Pbft, Step};
use new_pbft::state::State;
use new_pbft::database::MemoryStore;
use new_pbft::store::{BlockStore, Transaction};
use new_pbft::wire::{
    decode_commit, decode_hearbeat, decode_new_view, decode_prepare, decode_preprepare,
    decode_sync_request, decode_sync_response, decode_view_change, decode_view_response,
    encode_request, encode_view_response,
};
use new_pbft::{handle_message, heartbeat, new_request, view_change, view_change_announce, view_request, ViewChangeTick};
use rsa::pkcs1::{EncodeRsaPrivateKey, EncodeRsaPublicKey, LineEnding};
use rsa::{RsaPrivateKey, RsaPublicKey};

fn keys(n: usize) -> Vec<(String, String)> {
    let mut rng = rand::thread_rng();
    (0..n)
        .map(|_| {
            let private = RsaPrivateKey::new(&mut rng, 512).unwrap();
            let public = RsaPublicKey::from(&private);
            (
                private.to_pkcs1_pem(LineEnding::LF).unwrap().to_string(),
                public.to_pkcs1_pem(LineEnding::LF).unwrap(),
            )
        })
        .collect()
}

fn clients(keys: &[(String, String)]) -> Vec<Client> {
    let identities: Vec<Identity> = keys
        .iter()
        .enumerate()
        .map(|(i, (_, public))| Identity {
            node_id: i as u64,
            ip: "127.0.0.1".to_string(),
            port: 8000 + i as u64,
            public_key: public.clone(),
        })
        .collect();
    keys.iter()
        .enumerate()
        .map(|(i, (private, public))| {
            Client::new(i as u64, private.clone(), public.clone(), identities.clone())
        })
        .collect()
}

fn config(block_size: u64) -> ConstantConfig {
    ConstantConfig {
        database_name: "db".to_string(),
        multi_cast_addr: "224.0.0.1:5000".to_string(),
        multi_cast_ip: "224.0.0.1".to_string(),
        multi_cast_port: 5000,
        block_size,
        variable_config_path: "variable.json".to_string(),
    }
}

fn state() -> State<MemoryStore> {
    State::new(MemoryStore::new()).unwrap()
}

fn ready_pbft() -> Pbft {
    let mut p = Pbft::new(0, 0, 0);
    p.step = Step::Okay;
    p.start_time = 0;
    p
}

fn sent(acts: &[Action]) -> (Target, MessageType, Vec<u8>) {
    assert_eq!(acts.len(), 1);
    match &acts[0] {
        Action::Send { target, message_type, content } => (*target, *message_type, content.clone()),
        other => panic!("not a send: {:?}", other),
    }
}

#[test]
fn signatures_cover_everything_but_themselves() {
    let k = keys(2);
    let mut r = Request { transaction: Transaction::Tx2, timestamp: 5, node_id: 0, signature: vec![1, 2, 3] };
    sign_request(&k[0].0, &mut r).unwrap();
    let first = r.signature.clone();
    sign_request(&k[0].0, &mut r).unwrap();
    assert_eq!(r.signature, first);
    assert!(verify_request(&k[0].1, &mut r).unwrap());
    assert_eq!(r.signature, first);
    assert!(!verify_request(&k[1].1, &mut r).unwrap());
    r.timestamp = 6;
    assert!(!verify_request(&k[0].1, &mut r).unwrap());
}

#[test]
fn sign_data_and_verify_signature() {
    let k = keys(1);
    let s = sign_data(&k[0].0, b"hello").unwrap();
    assert_eq!(s.len(), 64);
    assert!(verify_signature(&k[0].1, b"hello", &s).unwrap());
    assert!(!verify_signature(&k[0].1, b"hellp", &s).unwrap());
    assert!(sign_data("not a key", b"hello").is_err());
    assert!(!verify_signature("not a key", b"hello", &s).unwrap());
}

#[test]
fn failed_signing_leaves_an_empty_signature() {
    let mut p = Prepare { view_number: 1, sequence_number: 1, digest: vec![], node_id: 0, signature: vec![5] };
    assert!(sign_prepare("not a key", &mut p).is_err());
    assert!(p.signature.is_empty());
    assert!(!verify_prepare("not a key", &mut p).unwrap());
}

#[test]
fn primary_index_and_client() {
    let k = keys(4);
    let c = clients(&k);
    assert!(c[0].is_primarry(0));
    assert!(c[1].is_primarry(5));
    assert!(!c[1].is_primarry(4));
    assert_eq!(c[2].nodes_number, 4);
}

#[test]
fn a_full_round_appends_a_block_on_a_backup() {
    let k = keys(4);
    let c = clients(&k);
    let cc = config(1);
    let vc = VariableConfig { view_number: 0 };

    // the primary proposes a block as soon as a block's worth of requests is pending
    let mut primary_state = state();
    let mut primary_pbft = ready_pbft();
    let request = new_request(&c[1], Transaction::Tx1, 42).unwrap();
    let acts = request_handler(&cc, &vc, &c[0], &mut primary_state, &mut primary_pbft, request, 10).unwrap();
    let (target, t, content) = sent(&acts);
    assert_eq!((target, t), (Target::Multicast, MessageType::PrePrepare));
    assert_eq!(primary_pbft.step, Step::ReceivingPrepare);
    assert_eq!(primary_pbft.start_time, 10);
    assert_eq!(primary_state.request_buffer.len(), 1);
    let pp = decode_preprepare(&content).unwrap();
    assert_eq!(pp.sequence_number, 1);
    assert_eq!(pp.block.index, 1);
    assert!(pp.block.previous_hash.is_empty());
    assert_eq!(pp.block.transactions, vec![Transaction::Tx1]);
    assert_eq!(pp.digest, Request::digest_requests(&primary_state.request_buffer).unwrap());

    // a backup accepts the proposal and announces its prepare
    let mut backup_state = state();
    let mut backup = ready_pbft();
    let acts = preprepare_handler(&vc, &c[1], &backup_state, &mut backup, pp, 11).unwrap();
    let (target, t, content) = sent(&acts);
    assert_eq!((target, t), (Target::Multicast, MessageType::Prepare));
    assert_eq!(backup.step, Step::ReceivingPrepare);
    assert!(backup.prepares.contains(&1));
    let own_prepare = decode_prepare(&content).unwrap();
    assert_eq!(own_prepare.sequence_number, 0);
    assert_eq!(own_prepare.node_id, 1);

    // with 2f + 1 = 3 prepares counted (its own among them) it moves on to commits
    let mut third = Prepare { view_number: 0, sequence_number: 0, digest: own_prepare.digest.clone(), node_id: 3, signature: vec![] };
    sign_prepare(&k[3].0, &mut third).unwrap();
    assert!(prepare_handler(&c[1], &mut backup, third).unwrap().is_empty());
    assert_eq!(backup.step, Step::ReceivingPrepare);
    assert_eq!(backup.prepares.len(), 2);
    let mut other = Prepare { view_number: 0, sequence_number: 0, digest: own_prepare.digest.clone(), node_id: 2, signature: vec![] };
    sign_prepare(&k[2].0, &mut other).unwrap();
    let acts = prepare_handler(&c[1], &mut backup, other).unwrap();
    let (_, t, content) = sent(&acts);
    assert_eq!(t, MessageType::Commit);
    assert_eq!(backup.step, Step::ReceiveingCommit);
    assert_eq!(decode_commit(&content).unwrap().node_id, 1);
    assert!(backup.commits.contains(&1));

    // with 2f + 1 = 3 commits counted the block is appended
    for id in [2u64, 3] {
        let mut commit = Commit { view_number: 0, sequence_number: 0, digest: vec![], node_id: id, signature: vec![] };
        new_pbft::key::sign_commit(&k[id as usize].0, &mut commit).unwrap();
        let acts = commit_handler(&vc, &c[1], &mut backup_state, &mut backup, commit).unwrap();
        assert!(acts.is_empty());
    }
    assert_eq!(backup.step, Step::Okay);
    assert_eq!(backup.sequence_number, 1);
    let last = backup_state.rocksdb.get_last_block().unwrap().unwrap();
    assert_eq!(last.index, 1);
    assert_eq!(last.transactions, vec![Transaction::Tx1]);
}

#[test]
fn the_primary_drops_committed_requests() {
    let k = keys(4);
    let c = clients(&k);
    let cc = config(2);
    let vc = VariableConfig { view_number: 0 };
    let mut s = state();
    let mut p = ready_pbft();
    for ts in [1u64, 2, 3] {
        let r = new_request(&c[2], Transaction::Tx0, ts).unwrap();
        let _ = request_handler(&cc, &vc, &c[0], &mut s, &mut p, r, 20).unwrap();
    }
    // the proposal holds the first two requests; the third waits
    assert_eq!(s.request_buffer.len(), 3);
    assert_eq!(p.preprepare.as_ref().unwrap().requests.len(), 2);
    p.step = Step::ReceiveingCommit;
    for id in [1u64, 2, 3] {
        let mut commit = Commit { view_number: 0, sequence_number: 0, digest: vec![], node_id: id, signature: vec![] };
        new_pbft::key::sign_commit(&k[id as usize].0, &mut commit).unwrap();
        commit_handler(&vc, &c[0], &mut s, &mut p, commit).unwrap();
    }
    assert_eq!(s.request_buffer.len(), 1);
    assert_eq!(s.request_buffer[0].timestamp, 3);
    assert_eq!(s.rocksdb.get_last_block().unwrap().unwrap().index, 1);
}

#[test]
fn requests_are_refused_by_backups_and_when_badly_signed() {
    let k = keys(4);
    let c = clients(&k);
    let cc = config(1);
    let vc = VariableConfig { view_number: 0 };
    let mut s = state();
    let mut p = ready_pbft();
    let r = new_request(&c[1], Transaction::Tx1, 1).unwrap();
    assert!(request_handler(&cc, &vc, &c[1], &mut s, &mut p, r, 1).unwrap().is_empty());
    assert!(s.request_buffer.is_empty());
    let mut r = new_request(&c[1], Transaction::Tx1, 1).unwrap();
    r.node_id = 2;
    assert!(request_handler(&cc, &vc, &c[0], &mut s, &mut p, r, 1).unwrap().is_empty());
    assert!(s.request_buffer.is_empty());
    assert_eq!(p.step, Step::Okay);
}

#[test]
fn the_request_buffer_holds_three_blocks_at_most() {
    let k = keys(4);
    let c = clients(&k);
    let cc = config(2);
    let vc = VariableConfig { view_number: 0 };
    let mut s = state();
    let mut p = ready_pbft();
    p.step = Step::ReceivingPrepare;
    p.start_time = 100;
    for ts in 0..10u64 {
        let r = new_request(&c[3], Transaction::Tx2, ts).unwrap();
        assert!(request_handler(&cc, &vc, &c[0], &mut s, &mut p, r, 100).unwrap().is_empty());
    }
    assert_eq!(s.request_buffer.len(), 6);
    // a stalled round is given up after more than a second
    let r = new_request(&c[3], Transaction::Tx2, 11).unwrap();
    let acts = request_handler(&cc, &vc, &c[0], &mut s, &mut p, r, 102).unwrap();
    assert_eq!(sent(&acts).1, MessageType::PrePrepare);
    assert_eq!(p.preprepare.as_ref().unwrap().requests.len(), 6);
}

#[test]
fn a_proposal_for_the_wrong_sequence_or_signer_is_ignored() {
    let k = keys(4);
    let c = clients(&k);
    let cc = config(1);
    let vc = VariableConfig { view_number: 0 };
    let mut ps = state();
    let mut pp_pbft = ready_pbft();
    let r = new_request(&c[1], Transaction::Tx1, 1).unwrap();
    let acts = request_handler(&cc, &vc, &c[0], &mut ps, &mut pp_pbft, r, 1).unwrap();
    let content = sent(&acts).2;

    let bs = state();
    let mut b = ready_pbft();
    b.sequence_number = 5;
    assert!(preprepare_handler(&vc, &c[1], &bs, &mut b, decode_preprepare(&content).unwrap(), 1).unwrap().is_empty());
    assert_eq!(b.step, Step::Okay);

    let mut b = ready_pbft();
    let mut forged = decode_preprepare(&content).unwrap();
    forged.digest = vec![0; 32];
    assert!(preprepare_handler(&vc, &c[1], &bs, &mut b, forged, 1).unwrap().is_empty());
    assert!(b.preprepare.is_none());

    // the primary ignores proposals
    let mut p2 = ready_pbft();
    assert!(preprepare_handler(&vc, &c[0], &bs, &mut p2, decode_preprepare(&content).unwrap(), 1).unwrap().is_empty());
}

#[test]
fn a_prepare_is_counted_once() {
    let k = keys(7);
    let c = clients(&k);
    let mut b = ready_pbft();
    b.step = Step::ReceivingPrepare;
    let mut p = Prepare { view_number: 0, sequence_number: 0, digest: vec![], node_id: 2, signature: vec![] };
    sign_prepare(&k[2].0, &mut p).unwrap();
    // f = 2 among 7 nodes: five prepares are needed
    assert!(prepare_handler(&c[1], &mut b, p.clone()).unwrap().is_empty());
    assert!(prepare_handler(&c[1], &mut b, p).unwrap().is_empty());
    assert_eq!(b.prepares.len(), 1);
    assert_eq!(b.step, Step::ReceivingPrepare);
}

#[test]
fn heartbeats_reset_the_timer() {
    let k = keys(4);
    let c = clients(&k);
    let vc = VariableConfig { view_number: 0 };
    let p = ready_pbft();
    assert!(heartbeat(&c[1], &p).unwrap().is_empty());
    let acts = heartbeat(&c[0], &p).unwrap();
    let (target, t, content) = sent(&acts);
    assert_eq!((target, t), (Target::Multicast, MessageType::Hearbeat));
    let beat = decode_hearbeat(&content).unwrap();
    let acts = hearbeat_handler(&vc, &c[2], &p, beat.clone()).unwrap();
    assert!(matches!(acts.as_slice(), [Action::ResetViewChangeTimer]));
    let other_view = VariableConfig { view_number: 1 };
    assert!(hearbeat_handler(&other_view, &c[2], &p, beat).unwrap().is_empty());
    let forged = Hearbeat { view_number: 0, sequence_number: 0, node_id: 1, signature: vec![1; 64] };
    assert!(hearbeat_handler(&vc, &c[2], &p, forged).unwrap().is_empty());
}

#[test]
fn a_silent_primary_leads_to_a_view_change() {
    let k = keys(4);
    let c = clients(&k);
    let mut p = ready_pbft();
    assert_eq!(view_change(&c[0], &mut p, 5), ViewChangeTick::Wait);
    assert_eq!(p.step, Step::Okay);
    assert_eq!(view_change(&c[2], &mut p, 5), ViewChangeTick::Wait);
    assert_eq!(p.step, Step::NoPrimary);
    assert_eq!(view_change(&c[2], &mut p, 6), ViewChangeTick::Announce);
    let acts = view_change_announce(&c[2], &mut p, 7).unwrap();
    let (_, t, content) = sent(&acts);
    assert_eq!(t, MessageType::ViewChange);
    let mut vote = decode_view_change(&content).unwrap();
    assert_eq!((vote.node_id, vote.view_number, vote.new_view_number), (2, 0, 2));
    assert!(new_pbft::key::verify_view_change(&k[2].1, &mut vote).unwrap());
    assert!(p.view_change_collect_map.is_empty());
    assert_eq!(p.step, Step::ReceivingViewChange);
    assert_eq!(p.new_view_number, 2);
    assert_eq!(p.start_time, 7);
    // a view change that has lasted more than a second is given up
    assert_eq!(view_change(&c[2], &mut p, 8), ViewChangeTick::Wait);
    assert_eq!(view_change(&c[2], &mut p, 9), ViewChangeTick::Announce);
    assert_eq!(p.step, Step::NoPrimary);
    let mut starting = Pbft::new(0, 0, 0);
    assert_eq!(view_change(&c[2], &mut starting, u64::MAX), ViewChangeTick::Stop);
}

#[test]
fn an_announcement_restarts_a_waiting_view_change() {
    let k = keys(4);
    let c = clients(&k);
    let mut p = ready_pbft();
    p.step = Step::ReceivingViewChange;
    p.start_time = 10;
    p.new_view_number = 3;
    let forged = NewView { view_number: 0, sequence_number: 0, node_id: 1, signature: vec![7; 64] };
    assert!(new_view_handler(&c[2], &mut p, forged, 12).unwrap().is_empty());
    assert_eq!(p.new_view_number, 3);
    let mut nv = NewView { view_number: 0, sequence_number: 0, node_id: 1, signature: vec![] };
    new_pbft::key::sign_new_view(&k[1].0, &mut nv).unwrap();
    assert!(new_view_handler(&c[2], &mut p, nv.clone(), 11).unwrap().is_empty());
    assert_eq!(p.step, Step::ReceivingViewChange);
    let acts = new_view_handler(&c[2], &mut p, nv, 12).unwrap();
    let (_, t, content) = sent(&acts);
    assert_eq!(t, MessageType::ViewChange);
    let vote = decode_view_change(&content).unwrap();
    assert_eq!(vote.new_view_number, 1);
    assert_eq!(vote.node_id, 2);
    assert_eq!(p.new_view_number, 4);
    assert_eq!(p.step, Step::ReceivingViewChange);
}

#[test]
fn a_starting_node_takes_the_view_of_a_quorum() {
    let k = keys(4);
    let c = clients(&k);
    let mut vc = VariableConfig { view_number: 0 };
    let mut p = Pbft::new(0, 0, 0);
    let mut responses = Vec::new();
    for id in [0u64, 1, 2] {
        let acts = view_request_handler(&VariableConfig { view_number: 5 }, &c[id as usize], ViewRequest {}).unwrap();
        let (target, t, content) = sent(&acts);
        assert_eq!((target, t), (Target::Sender, MessageType::ViewResponse));
        responses.push(decode_view_response(&content).unwrap());
    }
    assert!(view_response_handler(&mut vc, &c[3], &mut p, responses[0].clone()).unwrap().is_empty());
    assert!(view_response_handler(&mut vc, &c[3], &mut p, responses[0].clone()).unwrap().is_empty());
    assert!(view_response_handler(&mut vc, &c[3], &mut p, responses[1].clone()).unwrap().is_empty());
    let acts = view_response_handler(&mut vc, &c[3], &mut p, responses[2].clone()).unwrap();
    assert_eq!(acts.len(), 2);
    assert!(matches!(acts[0], Action::SaveViewNumber(5)));
    match &acts[1] {
        Action::Send { target, message_type, content } => {
            assert_eq!(*target, Target::Node(1));
            assert_eq!(*message_type, MessageType::StateRequest);
            assert!(content.is_empty());
        },
        other => panic!("{:?}", other),
    }
    assert_eq!(vc.view_number, 5);
    assert_eq!(p.view_number, 5);
    assert_eq!(p.step, Step::ReceivingStateResponse);
    assert_eq!(p.view_change_collect_map.get(&5).unwrap().len(), 3);
}

#[test]
fn the_new_primary_of_the_view_is_ready_at_once() {
    let k = keys(4);
    let c = clients(&k);
    let mut vc = VariableConfig { view_number: 0 };
    let mut p = Pbft::new(0, 0, 0);
    for id in [0usize, 2, 3] {
        let mut r = ViewResponse { view_number: 1, node_id: id as u64, signature: vec![] };
        new_pbft::key::sign_view_response(&k[id].0, &mut r).unwrap();
        view_response_handler(&mut vc, &c[1], &mut p, r).unwrap();
    }
    assert_eq!(p.step, Step::Okay);
    assert_eq!(vc.view_number, 0);
}

#[test]
fn a_lagging_node_catches_up() {
    let k = keys(4);
    let c = clients(&k);
    let vc = VariableConfig { view_number: 0 };
    // the primary has three blocks
    let mut primary_state = state();
    for i in 0..3 {
        let b = primary_state.rocksdb.create_block(&vec![Transaction::Tx0; i]).unwrap();
        primary_state.rocksdb.put_block(&b).unwrap();
    }
    let mut lagging = Pbft::new(0, 0, 0);
    lagging.step = Step::ReceivingStateResponse;
    let mut answer = StateResponse { sequence_number: 3, signature: vec![] };
    new_pbft::key::sign_state_response(&k[0].0, &mut answer).unwrap();
    let acts = state_response_handler(&vc, &c[3], &mut lagging, answer).unwrap();
    let (target, t, content) = sent(&acts);
    assert_eq!((target, t), (Target::Sender, MessageType::SyncRequest));
    let ask = decode_sync_request(&content).unwrap();
    assert_eq!((ask.from_index, ask.to_index), (1, 3));
    assert_eq!(lagging.step, Step::ReceivingSyncResponse);

    let acts = sync_request_handler(&c[0], &primary_state, ask).unwrap();
    let (_, t, content) = sent(&acts);
    assert_eq!(t, MessageType::SyncResponse);
    let blocks = decode_sync_response(&content).unwrap();
    assert_eq!(blocks.blocks.len(), 3);

    let mut lagging_state = state();
    let acts = sync_response_handler(&vc, &c[3], &mut lagging_state, &mut lagging, blocks).unwrap();
    assert_eq!(acts.len(), 1);
    assert_eq!(lagging.sequence_number, 3);
    assert_eq!(lagging.step, Step::ReceivingStateResponse);
    assert_eq!(lagging_state.rocksdb.get_last_block().unwrap().unwrap().index, 3);

    // when it is no longer behind it is ready
    let mut same = StateResponse { sequence_number: 3, signature: vec![] };
    new_pbft::key::sign_state_response(&k[0].0, &mut same).unwrap();
    assert!(state_response_handler(&vc, &c[3], &mut lagging, same).unwrap().is_empty());
    assert_eq!(lagging.step, Step::Okay);
}

#[test]
fn a_sync_request_is_answered_with_at_most_fifty_one_blocks() {
    let k = keys(1);
    let c = clients(&k);
    let mut s = state();
    for _ in 0..60 {
        let b = s.rocksdb.create_block(&vec![]).unwrap();
        s.rocksdb.put_block(&b).unwrap();
    }
    let acts = sync_request_handler(&c[0], &s, SyncRequest { from_index: 2, to_index: 1000 }).unwrap();
    let blocks = decode_sync_response(&sent(&acts).2).unwrap().blocks;
    assert_eq!(blocks.len(), 51);
    assert_eq!(blocks[50].index, 52);
    assert!(sync_request_handler(&c[0], &s, SyncRequest { from_index: 59, to_index: 70 }).is_err());
    let none = sync_request_handler(&c[0], &s, SyncRequest { from_index: 5, to_index: 4 }).unwrap();
    assert!(decode_sync_response(&sent(&none).2).unwrap().blocks.is_empty());
}

#[test]
fn a_start_up_that_takes_too_long_is_cut_short() {
    let mut p = Pbft::new(3, 9, 0);
    assert_eq!(p.step, Step::ReceivingViewResponse);
    assert_eq!((p.view_number, p.sequence_number, p.new_view_number), (3, 9, 3));
    assert!(view_request(&mut p));
    assert_eq!(p.step, Step::Okay);
    assert!(!view_request(&mut p));
}

#[test]
fn datagrams_are_dispatched_by_type() {
    let k = keys(4);
    let c = clients(&k);
    let cc = config(1);
    let mut vc = VariableConfig { view_number: 0 };
    let mut s = state();
    let mut p = ready_pbft();
    assert!(handle_message(&cc, &mut vc, &c[0], &mut s, &mut p, &[99, 1, 2], 1).is_err());
    assert!(handle_message(&cc, &mut vc, &c[0], &mut s, &mut p, &[], 1).is_err());
    // a message that cannot be read is ignored
    assert!(handle_message(&cc, &mut vc, &c[0], &mut s, &mut p, &[0, 1, 2], 1).unwrap().is_empty());
    // a request reaches the primary's handler
    let r = new_request(&c[1], Transaction::Tx0, 3).unwrap();
    let frame = frame_message(MessageType::Request, &encode_request(&r));
    let acts = handle_message(&cc, &mut vc, &c[0], &mut s, &mut p, &frame, 1).unwrap();
    assert_eq!(sent(&acts).1, MessageType::PrePrepare);
    // a request naming an unknown node is refused by the primary
    let mut r = new_request(&c[1], Transaction::Tx0, 3).unwrap();
    r.node_id = 9;
    let frame = frame_message(MessageType::Request, &encode_request(&r));
    assert!(handle_message(&cc, &mut vc, &c[0], &mut s, &mut p, &frame, 1).is_err());
    // a view request is answered to the sender
    let frame = frame_message(MessageType::ViewRequest, &[]);
    let acts = handle_message(&cc, &mut vc, &c[2], &mut s, &mut p, &frame, 1).unwrap();
    assert_eq!(sent(&acts).0, Target::Sender);
    let resp = decode_view_response(&sent(&acts).2).unwrap();
    assert_eq!(encode_view_response(&resp), sent(&acts).2);
}

#[test]
fn a_backup_ignores_requests_whatever_its_clock_reads() {
    let k = keys(4);
    let c = clients(&k);
    let cc = config(1);
    let mut vc = VariableConfig { view_number: 0 };
    let mut s = state();
    let mut p = ready_pbft();
    p.step = Step::ReceivingPrepare;
    p.start_time = 50;
    let r = new_request(&c[1], Transaction::Tx0, 3).unwrap();
    let frame = frame_message(MessageType::Request, &encode_request(&r));
    let acts = handle_message(&cc, &mut vc, &c[2], &mut s, &mut p, &frame, 10).unwrap();
    assert!(acts.is_empty());
    assert!(s.request_buffer.is_empty());
    assert_eq!(p.step, Step::ReceivingPrepare);
}

#[test]
fn view_change_messages_pass_the_check_with_the_signers_key() {
    let k = keys(2);
    let mut nv = NewView { view_number: 3, sequence_number: 9, node_id: 1, signature: vec![] };
    new_pbft::key::sign_new_view(&k[1].0, &mut nv).unwrap();
    assert!(new_pbft::key::verify_new_view(&k[1].1, &mut nv).unwrap());
    assert!(!new_pbft::key::verify_new_view(&k[0].1, &mut nv).unwrap());
    assert_eq!(nv.view_number, 3);
    let mut vc = new_pbft::message::ViewChange {
        view_number: 3,
        sequence_number: 9,
        node_id: 0,
        new_view_number: 4,
        signature: vec![],
    };
    new_pbft::key::sign_view_change(&k[0].0, &mut vc).unwrap();
    assert!(new_pbft::key::verify_view_change(&k[0].1, &mut vc).unwrap());
    vc.new_view_number = 5;
    assert!(!new_pbft::key::verify_view_change(&k[0].1, &mut vc).unwrap());
}

#[test]
fn a_quorum_of_view_change_votes_switches_the_view() {
    let k = keys(4);
    let c = clients(&k);
    let mut vc = VariableConfig { view_number: 0 };
    let mut p = ready_pbft();
    let vote = |id: usize| {
        let mut v = new_pbft::message::ViewChange {
            view_number: 0,
            sequence_number: 0,
            node_id: id as u64,
            new_view_number: 1,
            signature: vec![],
        };
        new_pbft::key::sign_view_change(&k[id].0, &mut v).unwrap();
        v
    };
    // a forged vote is not counted
    let mut forged = vote(2);
    forged.signature = vec![1; 64];
    assert!(view_change_handler(&mut vc, &c[3], &mut p, forged).unwrap().is_empty());
    assert!(p.view_change_collect_map.is_empty());
    assert!(view_change_handler(&mut vc, &c[3], &mut p, vote(2)).unwrap().is_empty());
    assert!(view_change_handler(&mut vc, &c[3], &mut p, vote(2)).unwrap().is_empty());
    assert!(view_change_handler(&mut vc, &c[3], &mut p, vote(0)).unwrap().is_empty());
    assert_eq!(p.view_number, 0);
    // the third vote for view 1 makes 2f + 1: node 3 takes view 1 and asks its primary, node 1
    let acts = view_change_handler(&mut vc, &c[3], &mut p, vote(1)).unwrap();
    assert_eq!(acts.len(), 2);
    assert!(matches!(acts[0], Action::SaveViewNumber(1)));
    match &acts[1] {
        Action::Send { target, message_type, content } => {
            assert_eq!(*target, Target::Node(1));
            assert_eq!(*message_type, MessageType::StateRequest);
            assert!(content.is_empty());
        },
        other => panic!("not a send: {:?}", other),
    }
    assert_eq!((vc.view_number, p.view_number), (1, 1));
    assert_eq!(p.step, Step::ReceivingStateResponse);
    // the new primary takes the view and is ready
    let mut vc1 = VariableConfig { view_number: 0 };
    let mut p1 = ready_pbft();
    for id in [0usize, 2, 3] {
        let _ = view_change_handler(&mut vc1, &c[1], &mut p1, vote(id)).unwrap();
    }
    assert_eq!((vc1.view_number, p1.view_number, p1.step), (1, 1, Step::Okay));
}

#[test]
fn key_texts_are_checked() {
    let k = keys(1);
    assert!(new_pbft::key::check_private_key(&k[0].0).is_ok());
    assert!(new_pbft::key::check_public_key(&k[0].1).is_ok());
    assert!(new_pbft::key::check_private_key(&k[0].1).is_err());
    assert!(new_pbft::key::check_public_key("not a key").is_err());
    let c = clients(&k);
    assert!(new_pbft::config::check_identities(&c[0].identities).is_ok());
    let mut bad = c[0].identities.clone();
    bad[0].public_key = "x".to_string();
    assert!(new_pbft::config::check_identities(&bad).is_err());
}
