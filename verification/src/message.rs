//! The protocol's messages and how a node answers them.
use crate::client::Client;
use crate::codec::enc_list;
use crate::config::{ConstantConfig, VariableConfig};
use crate::key::{
    commit_payload, hearbeat_payload, preprepare_payload, prepare_payload, request_payload,
    rsa_accepts, rsa_signature, sha256, sha256_digest, sign_commit, sign_preprepare, sign_prepare,
    sign_state_response, sign_sync_response, sign_view_change, sign_view_response, signed_commit,
    signed_prepare, signed_state_response, signed_sync_response, signed_view_change,
    signed_view_response, state_response_payload, sync_response_payload, unsigned_sync_response,
    verify_commit, verify_heartbeat, verify_preprepare, verify_prepare, verify_request,
    verify_state_response, verify_sync_response, verify_view_response, view_response_payload,
    new_view_payload, verify_new_view, verify_view_change, view_change_payload,
};
use crate::pbft::{collected_sets, Pbft, PbftView, Step};
use std::collections::HashSet;
use crate::state::State;
use crate::database::KeyValueStore;
use crate::store::{
    block_after, follows, law_put_block_reads_back, stored_blocks, block_fits_exec, lemma_put_keeps_last, after_put, block_at, block_fits, block_views, bytes_equal, chain_linked, last_block, law_put_keeps_chain, copy_bytes, Block, BlockStore, BlockView, Transaction,
};
use crate::utils::block_hash;
use crate::wire::{
    enc_commit, enc_preprepare, enc_prepare, enc_state_response, enc_sync_request,
    enc_sync_response, enc_view_change, enc_view_response, encode_commit, encode_preprepare,
    encode_prepare, encode_state_response, encode_sync_request, encode_sync_response,
    encode_view_change, encode_view_response, request_encoder, write_requests,
};
use vstd::prelude::*;

verus! {

broadcast use vstd::std_specs::hash::group_hash_axioms;

/// The kind of a message; its number is the first byte of a datagram.
#[derive(Debug, Clone, Copy, PartialEq, Eq, Structural)]
pub enum MessageType {
    Request,
    PrePrepare,
    Prepare,
    Commit,
    Reply,
    Hearbeat,
    ViewChange,
    NewView,
    ViewRequest,
    ViewResponse,
    StateRequest,
    StateResponse,
    SyncRequest,
    SyncResponse,
    Unknown,
}

/// The number of a message type: 0 to 13 in declaration order, 20 for `Unknown`.
pub open spec fn message_type_number(t: MessageType) -> u8 {
    match t {
        MessageType::Request => 0,
        MessageType::PrePrepare => 1,
        MessageType::Prepare => 2,
        MessageType::Commit => 3,
        MessageType::Reply => 4,
        MessageType::Hearbeat => 5,
        MessageType::ViewChange => 6,
        MessageType::NewView => 7,
        MessageType::ViewRequest => 8,
        MessageType::ViewResponse => 9,
        MessageType::StateRequest => 10,
        MessageType::StateResponse => 11,
        MessageType::SyncRequest => 12,
        MessageType::SyncResponse => 13,
        MessageType::Unknown => 20,
    }
}

/// The message type a received byte names; bytes above 13 name none.
pub open spec fn message_type_named(b: u8) -> Option<MessageType> {
    if b == 0 {
        Some(MessageType::Request)
    } else if b == 1 {
        Some(MessageType::PrePrepare)
    } else if b == 2 {
        Some(MessageType::Prepare)
    } else if b == 3 {
        Some(MessageType::Commit)
    } else if b == 4 {
        Some(MessageType::Reply)
    } else if b == 5 {
        Some(MessageType::Hearbeat)
    } else if b == 6 {
        Some(MessageType::ViewChange)
    } else if b == 7 {
        Some(MessageType::NewView)
    } else if b == 8 {
        Some(MessageType::ViewRequest)
    } else if b == 9 {
        Some(MessageType::ViewResponse)
    } else if b == 10 {
        Some(MessageType::StateRequest)
    } else if b == 11 {
        Some(MessageType::StateResponse)
    } else if b == 12 {
        Some(MessageType::SyncRequest)
    } else if b == 13 {
        Some(MessageType::SyncResponse)
    } else {
        None
    }
}

impl MessageType {
    /// The byte that announces a message of this type.
    pub fn to_byte(&self) -> (b: u8)
        ensures
            b == message_type_number(*self),
    {
        match self {
            MessageType::Request => 0,
            MessageType::PrePrepare => 1,
            MessageType::Prepare => 2,
            MessageType::Commit => 3,
            MessageType::Reply => 4,
            MessageType::Hearbeat => 5,
            MessageType::ViewChange => 6,
            MessageType::NewView => 7,
            MessageType::ViewRequest => 8,
            MessageType::ViewResponse => 9,
            MessageType::StateRequest => 10,
            MessageType::StateResponse => 11,
            MessageType::SyncRequest => 12,
            MessageType::SyncResponse => 13,
            MessageType::Unknown => 20,
        }
    }

    /// The message type that a received first byte announces, if any.
    pub fn from_byte(b: u8) -> (res: Option<MessageType>)
        ensures
            res == message_type_named(b),
    {
        if b == 0 {
            Some(MessageType::Request)
        } else if b == 1 {
            Some(MessageType::PrePrepare)
        } else if b == 2 {
            Some(MessageType::Prepare)
        } else if b == 3 {
            Some(MessageType::Commit)
        } else if b == 4 {
            Some(MessageType::Reply)
        } else if b == 5 {
            Some(MessageType::Hearbeat)
        } else if b == 6 {
            Some(MessageType::ViewChange)
        } else if b == 7 {
            Some(MessageType::NewView)
        } else if b == 8 {
            Some(MessageType::ViewRequest)
        } else if b == 9 {
            Some(MessageType::ViewResponse)
        } else if b == 10 {
            Some(MessageType::StateRequest)
        } else if b == 11 {
            Some(MessageType::StateResponse)
        } else if b == 12 {
            Some(MessageType::SyncRequest)
        } else if b == 13 {
            Some(MessageType::SyncResponse)
        } else {
            None
        }
    }
}

/// Every message type but `Unknown` is read back from its byte.
pub proof fn law_message_type_byte_roundtrip(t: MessageType)
    requires
        t != MessageType::Unknown,
    ensures
        message_type_named(message_type_number(t)) == Some(t),
{
}

/// The views of a list of requests.
pub open spec fn request_views(v: Seq<Request>) -> Seq<RequestView> {
    v.map_values(|r: Request| r@)
}

/// A client request: one transaction, stamped and signed by the node that sends it.
#[derive(Debug, Clone)]
pub struct Request {
    pub transaction: Transaction,
    pub timestamp: u64,
    pub node_id: u64,
    pub signature: Vec<u8>,
}

/// What a `Request` holds.
pub struct RequestView {
    pub transaction: Transaction,
    pub timestamp: u64,
    pub node_id: u64,
    pub signature: Seq<u8>,
}

impl View for Request {
    type V = RequestView;

    open spec fn view(&self) -> RequestView {
        RequestView { transaction: self.transaction, timestamp: self.timestamp, node_id: self.node_id, signature: self.signature@ }
    }
}

/// The primary's proposal of the next block for a sequence number.
#[derive(Debug, Clone)]
pub struct PrePrepare {
    pub view_number: u64,
    pub sequence_number: u64,
    pub digest: Vec<u8>,
    pub node_id: u64,
    pub signature: Vec<u8>,
    pub requests: Vec<Request>,
    pub block: Block,
}

/// What a `PrePrepare` holds.
pub struct PrePrepareView {
    pub view_number: u64,
    pub sequence_number: u64,
    pub digest: Seq<u8>,
    pub node_id: u64,
    pub signature: Seq<u8>,
    pub requests: Seq<RequestView>,
    pub block: BlockView,
}

impl View for PrePrepare {
    type V = PrePrepareView;

    open spec fn view(&self) -> PrePrepareView {
        PrePrepareView { view_number: self.view_number, sequence_number: self.sequence_number, digest: self.digest@, node_id: self.node_id, signature: self.signature@, requests: request_views(self.requests@), block: self.block@ }
    }
}

/// A backup's acceptance of a proposal.
#[derive(Debug, Clone)]
pub struct Prepare {
    pub view_number: u64,
    pub sequence_number: u64,
    pub digest: Vec<u8>,
    pub node_id: u64,
    pub signature: Vec<u8>,
}

/// What a `Prepare` holds.
pub struct PrepareView {
    pub view_number: u64,
    pub sequence_number: u64,
    pub digest: Seq<u8>,
    pub node_id: u64,
    pub signature: Seq<u8>,
}

impl View for Prepare {
    type V = PrepareView;

    open spec fn view(&self) -> PrepareView {
        PrepareView { view_number: self.view_number, sequence_number: self.sequence_number, digest: self.digest@, node_id: self.node_id, signature: self.signature@ }
    }
}

/// A node's readiness to commit a proposal.
#[derive(Debug, Clone)]
pub struct Commit {
    pub view_number: u64,
    pub sequence_number: u64,
    pub digest: Vec<u8>,
    pub node_id: u64,
    pub signature: Vec<u8>,
}

/// What a `Commit` holds.
pub struct CommitView {
    pub view_number: u64,
    pub sequence_number: u64,
    pub digest: Seq<u8>,
    pub node_id: u64,
    pub signature: Seq<u8>,
}

impl View for Commit {
    type V = CommitView;

    open spec fn view(&self) -> CommitView {
        CommitView { view_number: self.view_number, sequence_number: self.sequence_number, digest: self.digest@, node_id: self.node_id, signature: self.signature@ }
    }
}

/// An answer to a client (kept for the protocol; no node sends it).
#[derive(Debug, Clone)]
pub struct Reply {
    pub view_number: u64,
    pub timestamp: u64,
    pub client_id: u64,
    pub node_id: u64,
    pub result: String,
    pub signature: Vec<u8>,
}

/// What a `Reply` holds.
pub struct ReplyView {
    pub view_number: u64,
    pub timestamp: u64,
    pub client_id: u64,
    pub node_id: u64,
    pub result: Seq<char>,
    pub signature: Seq<u8>,
}

impl View for Reply {
    type V = ReplyView;

    open spec fn view(&self) -> ReplyView {
        ReplyView { view_number: self.view_number, timestamp: self.timestamp, client_id: self.client_id, node_id: self.node_id, result: self.result@, signature: self.signature@ }
    }
}

/// The primary's periodic sign of life.
#[derive(Debug, Clone)]
pub struct Hearbeat {
    pub view_number: u64,
    pub sequence_number: u64,
    pub node_id: u64,
    pub signature: Vec<u8>,
}

/// What a `Hearbeat` holds.
pub struct HearbeatView {
    pub view_number: u64,
    pub sequence_number: u64,
    pub node_id: u64,
    pub signature: Seq<u8>,
}

impl View for Hearbeat {
    type V = HearbeatView;

    open spec fn view(&self) -> HearbeatView {
        HearbeatView { view_number: self.view_number, sequence_number: self.sequence_number, node_id: self.node_id, signature: self.signature@ }
    }
}

/// A node's vote for a new view.
#[derive(Debug, Clone)]
pub struct ViewChange {
    pub view_number: u64,
    pub sequence_number: u64,
    pub node_id: u64,
    pub new_view_number: u64,
    pub signature: Vec<u8>,
}

/// What a `ViewChange` holds.
pub struct ViewChangeView {
    pub view_number: u64,
    pub sequence_number: u64,
    pub node_id: u64,
    pub new_view_number: u64,
    pub signature: Seq<u8>,
}

impl View for ViewChange {
    type V = ViewChangeView;

    open spec fn view(&self) -> ViewChangeView {
        ViewChangeView { view_number: self.view_number, sequence_number: self.sequence_number, node_id: self.node_id, new_view_number: self.new_view_number, signature: self.signature@ }
    }
}

/// A backup's announcement that it starts a view change.
#[derive(Debug, Clone)]
pub struct NewView {
    pub view_number: u64,
    pub sequence_number: u64,
    pub node_id: u64,
    pub signature: Vec<u8>,
}

/// What a `NewView` holds.
pub struct NewViewView {
    pub view_number: u64,
    pub sequence_number: u64,
    pub node_id: u64,
    pub signature: Seq<u8>,
}

impl View for NewView {
    type V = NewViewView;

    open spec fn view(&self) -> NewViewView {
        NewViewView { view_number: self.view_number, sequence_number: self.sequence_number, node_id: self.node_id, signature: self.signature@ }
    }
}

/// A starting node's question for the current view.
#[derive(Debug, Clone)]
pub struct ViewRequest {
}

/// What a `ViewRequest` holds.
pub struct ViewRequestView {
}

impl View for ViewRequest {
    type V = ViewRequestView;

    open spec fn view(&self) -> ViewRequestView {
        ViewRequestView {  }
    }
}

/// A node's answer with its current view.
#[derive(Debug, Clone)]
pub struct ViewResponse {
    pub view_number: u64,
    pub node_id: u64,
    pub signature: Vec<u8>,
}

/// What a `ViewResponse` holds.
pub struct ViewResponseView {
    pub view_number: u64,
    pub node_id: u64,
    pub signature: Seq<u8>,
}

impl View for ViewResponse {
    type V = ViewResponseView;

    open spec fn view(&self) -> ViewResponseView {
        ViewResponseView { view_number: self.view_number, node_id: self.node_id, signature: self.signature@ }
    }
}

/// A question for the primary's sequence number.
#[derive(Debug, Clone)]
pub struct StateRequest {
}

/// What a `StateRequest` holds.
pub struct StateRequestView {
}

impl View for StateRequest {
    type V = StateRequestView;

    open spec fn view(&self) -> StateRequestView {
        StateRequestView {  }
    }
}

/// The primary's answer with its sequence number.
#[derive(Debug, Clone)]
pub struct StateResponse {
    pub sequence_number: u64,
    pub signature: Vec<u8>,
}

/// What a `StateResponse` holds.
pub struct StateResponseView {
    pub sequence_number: u64,
    pub signature: Seq<u8>,
}

impl View for StateResponse {
    type V = StateResponseView;

    open spec fn view(&self) -> StateResponseView {
        StateResponseView { sequence_number: self.sequence_number, signature: self.signature@ }
    }
}

/// A request for the blocks `from_index..=to_index`.
#[derive(Debug, Clone)]
pub struct SyncRequest {
    pub from_index: u64,
    pub to_index: u64,
}

/// What a `SyncRequest` holds.
pub struct SyncRequestView {
    pub from_index: u64,
    pub to_index: u64,
}

impl View for SyncRequest {
    type V = SyncRequestView;

    open spec fn view(&self) -> SyncRequestView {
        SyncRequestView { from_index: self.from_index, to_index: self.to_index }
    }
}

/// The blocks asked for by a sync request.
#[derive(Debug, Clone)]
pub struct SyncResponse {
    pub blocks: Vec<Block>,
    pub signature: Vec<u8>,
}

/// What a `SyncResponse` holds.
pub struct SyncResponseView {
    pub blocks: Seq<BlockView>,
    pub signature: Seq<u8>,
}

impl View for SyncResponse {
    type V = SyncResponseView;

    open spec fn view(&self) -> SyncResponseView {
        SyncResponseView { blocks: block_views(self.blocks@), signature: self.signature@ }
    }
}


// ---------------------------------------------------------------------------
// Answering messages
// ---------------------------------------------------------------------------
/// Where a node sends a message.
#[derive(Debug, Clone, Copy, PartialEq, Eq, Structural)]
pub enum Target {
    /// The multicast group of all nodes.
    Multicast,
    /// The node that sent the message being answered.
    Sender,
    /// The node with this id, at the address of its identity.
    Node(u64),
}

/// What a node does after it has handled an event.
#[derive(Debug)]
pub enum Action {
    /// Send a message of the given type whose bytes are `content`.
    Send { target: Target, message_type: MessageType, content: Vec<u8> },
    /// Restart the timer after which a backup suspects the primary.
    ResetViewChangeTimer,
    /// Keep the view number in the variable configuration file.
    SaveViewNumber(u64),
}

/// The actions are exactly one: sending `content` as a message of type `t` to `target`.
pub open spec fn sends_one(acts: Seq<Action>, target: Target, t: MessageType, content: Seq<u8>) -> bool {
    &&& acts.len() == 1
    &&& acts[0] matches Action::Send { target: g, message_type: m, content: c } && g == target
        && m == t && c@ == content
}

/// The action sends the node's primary an empty state request.
pub open spec fn asks_state(a: Action, primary: u64) -> bool {
    a matches Action::Send { target: t, message_type: m, content: c } && t == Target::Node(primary)
        && m == MessageType::StateRequest && c@.len() == 0
}

/// The action keeps the view number.
pub open spec fn saves_view(a: Action, view_number: u64) -> bool {
    a matches Action::SaveViewNumber(v) && v == view_number
}

/// The only action restarts the view change timer.
pub open spec fn resets_timer(res: Result<Vec<Action>, String>) -> bool {
    res matches Ok(acts) && acts@.len() == 1 && acts@[0] is ResetViewChangeTimer
}

/// The handler did nothing visible.
pub open spec fn quiet(res: Result<Vec<Action>, String>) -> bool {
    res matches Ok(acts) && acts@.len() == 0
}

/// More than a second has passed since `start_time`.
pub open spec fn timed_out(start_time: u64, now: u64) -> bool {
    now - start_time > 1
}

/// A round of agreement (collecting prepares or commits) is under way.
pub open spec fn in_round(step: Step) -> bool {
    step == Step::ReceivingPrepare || step == Step::ReceiveingCommit
}

/// The step after a stalled round is given up: back to `Okay` once a round
/// has lasted more than a second.
pub open spec fn step_after_timeout(p: PbftView, now: u64) -> Step {
    if in_round(p.step) && timed_out(p.start_time, now) {
        Step::Okay
    } else {
        p.step
    }
}

/// The number of faulty nodes tolerated among `n`: f = (n - 1) / 3.
pub open spec fn faults_tolerated(n: nat) -> nat {
    ((n - 1) / 3) as nat
}

/// Prepares needed before committing: 2f + 1, the node's own among them.
pub open spec fn prepare_quorum(n: nat) -> nat {
    2 * faults_tolerated(n) + 1
}

/// Commits, or view responses, needed to decide: 2f + 1.
pub open spec fn commit_quorum(n: nat) -> nat {
    2 * faults_tolerated(n) + 1
}

/// A set of node ids below `k` is finite and has at most `k` members.
proof fn lemma_ids_below(s: Set<u64>, k: nat)
    requires
        forall|id: u64| #[trigger] s.contains(id) ==> id < k,
    ensures
        s.finite(),
        s.len() <= k,
    decreases k,
{
    if k == 0 {
        assert(s =~= Set::empty());
    } else if k > u64::MAX + 1 {
        lemma_ids_below(s, (u64::MAX + 1) as nat);
    } else {
        let top = (k - 1) as u64;
        let rest = s.remove(top);
        lemma_ids_below(rest, top as nat);
        if s.contains(top) {
            assert(s =~= rest.insert(top));
        } else {
            assert(s =~= rest);
        }
    }
}

/// Any two quorums of 2f + 1 nodes among n (the prepares, the commits, or
/// the view responses, that settle a step) share at least
/// 2 (2f + 1) - n nodes; among n = 3f + 1 nodes that is f + 1, so at least one
/// node that is not faulty.
pub proof fn law_quorums_intersect(n: nat, a: Set<u64>, b: Set<u64>)
    requires
        forall|id: u64| #[trigger] a.contains(id) ==> id < n,
        forall|id: u64| #[trigger] b.contains(id) ==> id < n,
        a.len() >= commit_quorum(n),
        b.len() >= commit_quorum(n),
    ensures
        a.intersect(b).len() + n >= 2 * commit_quorum(n),
        n % 3 == 1 ==> a.intersect(b).len() >= faults_tolerated(n) + 1,
{
    lemma_ids_below(a, n);
    lemma_ids_below(b, n);
    lemma_ids_below(a + b, n);
    vstd::set_lib::lemma_set_intersect_union_lens(a, b);
}

/// The request is signed by the node it names as its sender.
pub open spec fn request_signed(client: Client, r: RequestView) -> bool {
    rsa_accepts(client.public_key_of(r.node_id), sha256(request_payload(r)), r.signature)
}

/// The transactions of the requests, in order.
pub open spec fn request_transactions(requests: Seq<Request>) -> Seq<Transaction> {
    requests.map_values(|r: Request| r.transaction)
}

/// The digest of a list of requests: the SHA-256 of its bytes.
pub open spec fn requests_digest(requests: Seq<RequestView>) -> Seq<u8> {
    sha256(enc_list(requests, request_encoder()))
}

/// The proposal a primary makes of its pending requests.
pub open spec fn is_proposal(
    pp: PrePrepareView,
    client: Client,
    pbft: PbftView,
    requests: Seq<Request>,
) -> bool {
    &&& pp.view_number == pbft.view_number
    &&& pp.sequence_number == pbft.sequence_number + 1
    &&& pp.digest == requests_digest(request_views(requests))
    &&& pp.node_id == client.local_node_id
    &&& pp.requests == request_views(requests)
    &&& pp.block.transactions == request_transactions(requests)
    &&& pp.block.hash == block_hash(
        pp.block.index,
        pp.block.timestamp,
        pp.block.transactions,
        pp.block.previous_hash,
    )
    &&& rsa_signature(client.private_key@, sha256(preprepare_payload(pp))) == Some(pp.signature)
}

impl Request {
    /// The digest of a list of requests: the SHA-256 of their bytes.
    pub fn digest_requests(requests: &Vec<Request>) -> (res: Result<Vec<u8>, String>)
        ensures
            res matches Ok(d) && d@ == requests_digest(request_views(requests@)),
    {
        let mut data: Vec<u8> = Vec::new();
        write_requests(&mut data, requests);
        assert(data@ =~= enc_list(request_views(requests@), request_encoder()));
        Ok(sha256_digest(data.as_slice()))
    }
}

/// A copy of a request.
pub fn copy_request(r: &Request) -> (res: Request)
    ensures
        res@ == r@,
{
    Request {
        transaction: r.transaction,
        timestamp: r.timestamp,
        node_id: r.node_id,
        signature: copy_bytes(&r.signature),
    }
}

/// A copy of a list of requests.
pub fn copy_requests(v: &Vec<Request>) -> (res: Vec<Request>)
    ensures
        request_views(res@) == request_views(v@),
{
    let mut res: Vec<Request> = Vec::new();
    let mut i: usize = 0;
    while i < v.len()
        invariant
            i <= v@.len(),
            res@.len() == i,
            request_views(res@) == request_views(v@.take(i as int)),
        decreases v@.len() - i,
    {
        let ghost before = res@;
        res.push(copy_request(&v[i]));
        i = i + 1;
        assert(v@.take(i as int) =~= v@.take(i - 1).push(v@[i - 1]));
        assert forall|j: int| 0 <= j < i implies #[trigger] request_views(res@)[j] == request_views(
            v@.take(i as int),
        )[j] by {
            if j < i - 1 {
                assert(res@[j] == before[j]);
                assert(request_views(before)[j] == request_views(v@.take(i - 1))[j]);
            }
        }
        assert(request_views(res@) =~= request_views(v@.take(i as int)));
    }
    assert(v@.take(v@.len() as int) =~= v@);
    res
}

/// The transactions of a list of requests.
fn transactions_of(requests: &Vec<Request>) -> (res: Vec<Transaction>)
    ensures
        res@ == request_transactions(requests@),
{
    let mut res: Vec<Transaction> = Vec::new();
    let mut i: usize = 0;
    while i < requests.len()
        invariant
            i <= requests@.len(),
            res@ == request_transactions(requests@.take(i as int)),
        decreases requests@.len() - i,
    {
        res.push(requests[i].transaction);
        i = i + 1;
        assert(res@ =~= request_transactions(requests@.take(i as int)));
    }
    assert(requests@.take(requests@.len() as int) =~= requests@);
    res
}

/// Whether a node is the primary of the view, without its `Client`.
fn primary_is(client: &Client, view_number: u64) -> (res: bool)
    requires
        client.well_formed(),
    ensures
        res == (client.primary_of(view_number) == client.local_node_id),
{
    client.is_primarry(view_number)
}

/// Whether more than a second has passed since `start_time`.
fn has_timed_out(start_time: u64, now: u64) -> (res: bool)
    requires
        now >= start_time,
    ensures
        res == timed_out(start_time, now),
{
    now - start_time > 1
}

/// 2f + 1 prepares, for the nodes a client knows.
fn prepares_needed(client: &Client) -> (res: usize)
    requires
        client.well_formed(),
    ensures
        res == prepare_quorum(client.identities@.len()),
{
    2 * ((client.identities.len() - 1) / 3) + 1
}

/// 2f + 1 for the nodes a client knows.
pub(crate) fn commits_needed(client: &Client) -> (res: usize)
    requires
        client.well_formed(),
    ensures
        res == commit_quorum(client.identities@.len()),
{
    2 * ((client.identities.len() - 1) / 3) + 1
}

/// What the primary's handling of `request` returns (`res`), and how it
/// leaves the pending requests (`b0` before, `b1` after) and the consensus
/// state (`p0` before, `p1` after).
pub open spec fn request_handled(
    constant_config: ConstantConfig,
    variable_config: VariableConfig,
    client: Client,
    c0: Map<Seq<u8>, Seq<u8>>,
    b0: Seq<Request>,
    b1: Seq<Request>,
    p0: PbftView,
    p1: PbftView,
    request: Request,
    now: u64,
    res: Result<Vec<Action>, String>,
) -> bool {
    let accepted = request_accepted(variable_config, client, request);
    let bs = constant_config.block_size;
    let buffer = buffer_with(constant_config, b0, request);
    let step = step_after_timeout(p0, now);
    &&& !accepted ==> quiet(res) && b1 == b0 && p1 == p0
    &&& accepted ==> b1 == buffer
    &&& accepted && (step != Step::Okay || buffer.len() < bs) ==> quiet(res) && p1 == (PbftView {
        step,
        ..p0
    })
    &&& accepted && step == Step::Okay && buffer.len() >= bs ==> {
        &&& p1 == (PbftView {
            step: Step::ReceivingPrepare,
            start_time: now,
            prepares: Set::empty(),
            commits: Set::empty(),
            preprepare: p1.preprepare,
            ..p0
        })
        &&& !(last_block(c0) matches Some(Some(_))) ==> res is Err
        &&& res matches Ok(acts) ==> (p1.preprepare matches Some(pp) && is_proposal(pp, client, p0, buffer)
            && sends_one(acts@, Target::Multicast, MessageType::PrePrepare, enc_preprepare(pp)) && (
        last_block(c0) matches Some(Some(last)) && pp.block == block_after(
            last,
            request_transactions(buffer),
            pp.block.timestamp,
        )))
    }
}

/// The primary of the view takes the request: it is the primary and the
/// request is signed by the node it names.
pub open spec fn request_accepted(variable_config: VariableConfig, client: Client, request: Request) -> bool {
    client.primary_of(variable_config.view_number) == client.local_node_id && request_signed(
        client,
        request@,
    )
}

/// The pending requests once `request` is taken: it joins them while there
/// are fewer than three blocks' worth.
pub open spec fn buffer_with(constant_config: ConstantConfig, b0: Seq<Request>, request: Request) -> Seq<Request> {
    if b0.len() < 3 * constant_config.block_size {
        b0.push(request)
    } else {
        b0
    }
}

/// Taking `request` leads the primary to propose a block.
pub open spec fn request_proposes(
    constant_config: ConstantConfig,
    variable_config: VariableConfig,
    client: Client,
    b0: Seq<Request>,
    p0: PbftView,
    request: Request,
    now: u64,
) -> bool {
    &&& request_accepted(variable_config, client, request)
    &&& step_after_timeout(p0, now) == Step::Okay
    &&& buffer_with(constant_config, b0, request).len() >= constant_config.block_size
}

/// The primary handles a client request: a correctly signed request joins the
/// pending requests (while there are fewer than three blocks' worth); once a
/// block's worth is pending and no round is under way, the primary proposes
/// them in a pre-prepare to all nodes.
pub fn request_handler<D: KeyValueStore>(
    constant_config: &ConstantConfig,
    variable_config: &VariableConfig,
    client: &Client,
    state: &mut State<D>,
    pbft: &mut Pbft,
    request: Request,
    now: u64,
) -> (res: Result<Vec<Action>, String>)
    requires
        client.well_formed(),
        client.primary_of(variable_config.view_number) == client.local_node_id
            ==> request.node_id < client.identities@.len(),
        request_accepted(*variable_config, *client, request) ==> 3 * constant_config.block_size
            <= usize::MAX,
        request_accepted(*variable_config, *client, request) && in_round(old(pbft).step) ==> now
            >= old(pbft).start_time,
        request_proposes(
            *constant_config,
            *variable_config,
            *client,
            old(state).request_buffer@,
            old(pbft)@,
            request,
            now,
        ) ==> old(pbft).sequence_number < u64::MAX,
    ensures
        final(state).rocksdb == old(state).rocksdb,
        request_handled(
            *constant_config,
            *variable_config,
            *client,
            old(state).rocksdb.db.contents(),
            old(state).request_buffer@,
            final(state).request_buffer@,
            old(pbft)@,
            final(pbft)@,
            request,
            now,
            res,
        ),
{
    let mut request = request;
    let ghost received = request;
    if !primary_is(client, variable_config.view_number) {
        let acts: Vec<Action> = Vec::new();
        assert(quiet(Ok(acts)));
        assert(!(client.primary_of(variable_config.view_number) == client.local_node_id));
        return Ok(acts);
    }
    let n = client.identities.len();
    assert(request.node_id < n);
    let key = client.identities[request.node_id as usize].public_key.as_str();
    let signed = match verify_request(key, &mut request) {
        Ok(b) => b,
        Err(e) => return Err(e),
    };
    assert(request == received);
    assert(key@ == client.public_key_of(request.node_id));
    assert(signed == request_signed(*client, received@));
    if !signed {
        return Ok(Vec::new());
    }
    if state.request_buffer.len() < 3 * (constant_config.block_size as usize) {
        state.add_request(request);
    }
    if (pbft.step == Step::ReceivingPrepare || pbft.step == Step::ReceiveingCommit) && has_timed_out(
        pbft.start_time,
        now,
    ) {
        pbft.step = Step::Okay;
    }
    if pbft.step != Step::Okay || state.request_buffer.len() < constant_config.block_size as usize {
        return Ok(Vec::new());
    }
    pbft.step = Step::ReceivingPrepare;
    pbft.start_time = now;
    pbft.prepares.clear();
    pbft.commits.clear();
    let transactions = transactions_of(&state.request_buffer);
    let digest = match Request::digest_requests(&state.request_buffer) {
        Ok(d) => d,
        Err(e) => return Err(e),
    };
    let block = match state.rocksdb.create_block(&transactions) {
        Ok(b) => b,
        Err(e) => return Err(e),
    };
    let mut preprepare = PrePrepare {
        view_number: pbft.view_number,
        sequence_number: pbft.sequence_number + 1,
        digest,
        node_id: client.local_node_id,
        signature: Vec::new(),
        requests: copy_requests(&state.request_buffer),
        block,
    };
    match sign_preprepare(client.private_key.as_str(), &mut preprepare) {
        Ok(()) => {},
        Err(e) => return Err(e),
    }
    let content = encode_preprepare(&preprepare);
    pbft.preprepare = Some(preprepare);
    let mut acts: Vec<Action> = Vec::new();
    acts.push(Action::Send { target: Target::Multicast, message_type: MessageType::PrePrepare, content });
    Ok(acts)
}

/// The public key of a node, as text.
pub(crate) fn public_key_at(client: &Client, node_id: u64) -> (res: &str)
    requires
        node_id < client.identities@.len(),
    ensures
        res@ == client.public_key_of(node_id),
{
    let n = client.identities.len();
    assert(node_id < n);
    client.identities[node_id as usize].public_key.as_str()
}

/// The node id of the primary of a view.
fn primary_id(client: &Client, view_number: u64) -> (res: u64)
    requires
        client.well_formed(),
    ensures
        res == client.primary_of(view_number),
        res < client.identities@.len(),
{
    view_number % client.nodes_number
}

/// The message carries a valid signature of the node `signer` over `payload`.
pub open spec fn signed_by(client: Client, signer: u64, payload: Seq<u8>, signature: Seq<u8>) -> bool {
    rsa_accepts(client.public_key_of(signer), sha256(payload), signature)
}

/// What a backup's handling of `preprepare` returns (`res`), and how it
/// leaves the consensus state (`p0` before, `p1` after), where its database
/// holds `c`.
pub open spec fn preprepare_handled(
    variable_config: VariableConfig,
    client: Client,
    reliable: bool,
    c: Map<Seq<u8>, Seq<u8>>,
    p0: PbftView,
    p1: PbftView,
    preprepare: PrePrepare,
    now: u64,
    res: Result<Vec<Action>, String>,
) -> bool {
    let here_primary = client.primary_of(variable_config.view_number) == client.local_node_id;
    let step = step_after_timeout(p0, now);
    let candidate = !here_primary && step == Step::Okay && preprepare.view_number
        == variable_config.view_number && preprepare.sequence_number == p0.sequence_number + 1;
    let accepted = candidate && (last_block(c) matches Some(Some(last))
        && preprepare@.block.previous_hash == last.hash) && signed_by(
        client,
        client.primary_of(variable_config.view_number),
        preprepare_payload(preprepare@),
        preprepare@.signature,
    );
    let taken = PbftView {
        step: Step::ReceivingPrepare,
        start_time: now,
        preprepare: Some(preprepare@),
        prepares: Set::empty(),
        commits: Set::empty(),
        ..p0
    };
    &&& here_primary ==> quiet(res) && p1 == p0
    &&& !here_primary && !accepted ==> p1 == (PbftView { step, ..p0 }) && (res is Ok ==> quiet(res))
    &&& !here_primary && !candidate ==> quiet(res)
    &&& candidate && !(last_block(c) matches Some(Some(_))) ==> res is Err
    &&& res matches Ok(acts) ==> (acts@.len() > 0 <==> accepted)
    &&& accepted && res is Ok ==> p1 == (PbftView { prepares: set![client.local_node_id], ..taken })
        && (res matches Ok(acts) && signed_prepare(
        client.private_key@,
        PrepareView {
            view_number: p0.view_number,
            sequence_number: p0.sequence_number,
            digest: preprepare@.digest,
            node_id: client.local_node_id,
            signature: Seq::empty(),
        },
    ) matches Some(p) && sends_one(acts@, Target::Multicast, MessageType::Prepare, enc_prepare(p)))
    &&& accepted && res is Err ==> p1 == (PbftView { step, ..p0 }) || p1 == taken
    &&& reliable && accepted && signed_prepare(
        client.private_key@,
        PrepareView {
            view_number: p0.view_number,
            sequence_number: p0.sequence_number,
            digest: preprepare@.digest,
            node_id: client.local_node_id,
            signature: Seq::empty(),
        },
    ) is Some ==> res is Ok
}

/// A backup handles a pre-prepare from the primary: a stalled round is given
/// up first; a proposal for the next sequence number of the current view,
/// built on the node's last block and signed by the primary, is accepted; the
/// backup then announces a prepare to all nodes and counts itself among the
/// prepares.
pub fn preprepare_handler<D: KeyValueStore>(
    variable_config: &VariableConfig,
    client: &Client,
    state: &State<D>,
    pbft: &mut Pbft,
    preprepare: PrePrepare,
    now: u64,
) -> (res: Result<Vec<Action>, String>)
    requires
        client.well_formed(),
        client.primary_of(variable_config.view_number) != client.local_node_id && in_round(
            old(pbft).step,
        ) ==> now >= old(pbft).start_time,
    ensures
        preprepare_handled(
            *variable_config,
            *client,
            state.rocksdb.db.never_fails(),
            state.rocksdb.db.contents(),
            old(pbft)@,
            final(pbft)@,
            preprepare,
            now,
            res,
        ),
{
    let mut preprepare = preprepare;
    let ghost received = preprepare;
    if primary_is(client, variable_config.view_number) {
        return Ok(Vec::new());
    }
    if (pbft.step == Step::ReceivingPrepare || pbft.step == Step::ReceiveingCommit) && has_timed_out(
        pbft.start_time,
        now,
    ) {
        pbft.step = Step::Okay;
    }
    if !(pbft.step == Step::Okay && preprepare.view_number == variable_config.view_number
        && pbft.sequence_number < u64::MAX && preprepare.sequence_number == pbft.sequence_number
        + 1) {
        return Ok(Vec::new());
    }
    let last = match state.rocksdb.get_last_block() {
        Ok(Some(b)) => b,
        Ok(None) => return Err("缺失创世区块".to_string()),
        Err(e) => return Err(e),
    };
    if !bytes_equal(preprepare.block.previous_hash.as_slice(), last.hash.as_slice()) {
        return Ok(Vec::new());
    }
    let primary = primary_id(client, variable_config.view_number);
    let signed = match verify_preprepare(public_key_at(client, primary), &mut preprepare) {
        Ok(b) => b,
        Err(e) => return Err(e),
    };
    assert(preprepare == received);
    if !signed {
        return Ok(Vec::new());
    }
    pbft.step = Step::ReceivingPrepare;
    pbft.start_time = now;
    let digest = copy_bytes(&preprepare.digest);
    pbft.preprepare = Some(preprepare);
    pbft.prepares.clear();
    pbft.commits.clear();
    let mut prepare = Prepare {
        view_number: pbft.view_number,
        sequence_number: pbft.sequence_number,
        digest,
        node_id: client.local_node_id,
        signature: Vec::new(),
    };
    match sign_prepare(client.private_key.as_str(), &mut prepare) {
        Ok(()) => {},
        Err(e) => return Err(e),
    }
    pbft.prepares.insert(client.local_node_id);
    assert(pbft.prepares@ =~= set![client.local_node_id]);
    let content = encode_prepare(&prepare);
    let mut acts: Vec<Action> = Vec::new();
    acts.push(Action::Send { target: Target::Multicast, message_type: MessageType::Prepare, content });
    Ok(acts)
}

/// What a node's handling of `prepare` returns (`res`), and how it leaves the
/// consensus state (`p0` before, `p1` after).
pub open spec fn prepare_handled(
    client: Client,
    p0: PbftView,
    p1: PbftView,
    prepare: Prepare,
    res: Result<Vec<Action>, String>,
) -> bool {
    let accepted = p0.step == Step::ReceivingPrepare && !p0.prepares.contains(prepare.node_id)
        && signed_by(client, prepare.node_id, prepare_payload(prepare@), prepare@.signature);
    let prepares = p0.prepares.insert(prepare.node_id);
    &&& !accepted ==> quiet(res) && p1 == p0
    &&& accepted && prepares.len() < prepare_quorum(client.identities@.len()) ==> quiet(res) && p1
        == (PbftView { prepares, ..p0 })
    &&& accepted && prepares.len() >= prepare_quorum(client.identities@.len()) ==> {
        &&& p1 == (PbftView { step: Step::ReceiveingCommit, prepares, commits: p1.commits, ..p0 })
        &&& res matches Ok(acts) ==> (p1.commits == p0.commits.insert(client.local_node_id) && (
        signed_commit(
            client.private_key@,
            CommitView {
                view_number: p0.view_number,
                sequence_number: p0.sequence_number,
                digest: prepare@.digest,
                node_id: client.local_node_id,
                signature: Seq::empty(),
            },
        ) matches Some(c) && sends_one(acts@, Target::Multicast, MessageType::Commit, enc_commit(c))))
        &&& res is Err ==> p1.commits == p0.commits
        &&& signed_commit(
            client.private_key@,
            CommitView {
                view_number: p0.view_number,
                sequence_number: p0.sequence_number,
                digest: prepare@.digest,
                node_id: client.local_node_id,
                signature: Seq::empty(),
            },
        ) is Some ==> res is Ok
    }
}

/// A node counts a prepare: while collecting prepares, a prepare signed by a
/// node not yet counted is counted; once 2f + 1 are counted, the node moves on to
/// collecting commits and announces its own commit to all nodes.
pub fn prepare_handler(
    client: &Client,
    pbft: &mut Pbft,
    prepare: Prepare,
) -> (res: Result<Vec<Action>, String>)
    requires
        client.well_formed(),
        old(pbft).step == Step::ReceivingPrepare && !old(pbft).prepares@.contains(prepare.node_id)
            ==> prepare.node_id < client.identities@.len(),
    ensures
        prepare_handled(*client, old(pbft)@, final(pbft)@, prepare, res),
{
    let mut prepare = prepare;
    let ghost received = prepare;
    if !(pbft.step == Step::ReceivingPrepare && !pbft.prepares.contains(&prepare.node_id)) {
        return Ok(Vec::new());
    }
    let signed = match verify_prepare(public_key_at(client, prepare.node_id), &mut prepare) {
        Ok(b) => b,
        Err(e) => return Err(e),
    };
    assert(prepare == received);
    if !signed {
        return Ok(Vec::new());
    }
    pbft.prepares.insert(prepare.node_id);
    if pbft.prepares.len() < prepares_needed(client) {
        return Ok(Vec::new());
    }
    pbft.step = Step::ReceiveingCommit;
    let mut commit = Commit {
        view_number: pbft.view_number,
        sequence_number: pbft.sequence_number,
        digest: prepare.digest,
        node_id: client.local_node_id,
        signature: Vec::new(),
    };
    match sign_commit(client.private_key.as_str(), &mut commit) {
        Ok(()) => {},
        Err(e) => return Err(e),
    }
    pbft.commits.insert(client.local_node_id);
    let content = encode_commit(&commit);
    let mut acts: Vec<Action> = Vec::new();
    acts.push(Action::Send { target: Target::Multicast, message_type: MessageType::Commit, content });
    Ok(acts)
}

/// What a database holds after each of `blocks` is put, in order.
pub open spec fn after_puts(c: Map<Seq<u8>, Seq<u8>>, blocks: Seq<BlockView>) -> Map<Seq<u8>, Seq<u8>>
    decreases blocks.len(),
{
    if blocks.len() == 0 {
        c
    } else {
        after_put(after_puts(c, blocks.drop_last()), blocks.last())
    }
}

/// Putting a run of blocks, as a node that catches up does, keeps the chain whole.
pub proof fn law_puts_keep_chain(c: Map<Seq<u8>, Seq<u8>>, blocks: Seq<BlockView>)
    requires
        chain_linked(c),
        forall|i: int| 0 <= i < blocks.len() ==> block_fits(#[trigger] blocks[i]),
    ensures
        chain_linked(after_puts(c, blocks)),
    decreases blocks.len(),
{
    if blocks.len() > 0 {
        law_puts_keep_chain(c, blocks.drop_last());
        law_put_keeps_chain(after_puts(c, blocks.drop_last()), blocks.last());
    }
}

/// The pending requests left once the first `done` of them are in a block.
pub open spec fn requests_after(buffer: Seq<Request>, done: nat) -> Seq<Request> {
    if done <= buffer.len() {
        buffer.skip(done as int)
    } else {
        Seq::empty()
    }
}

/// What a node's handling of `commit` returns (`res`), and how it leaves the
/// pending requests (`b0` before, `b1` after), its database (`c0`, `c1`) and
/// the consensus state (`p0`, `p1`).
pub open spec fn commit_handled(
    variable_config: VariableConfig,
    client: Client,
    reliable: bool,
    b0: Seq<Request>,
    b1: Seq<Request>,
    c0: Map<Seq<u8>, Seq<u8>>,
    c1: Map<Seq<u8>, Seq<u8>>,
    p0: PbftView,
    p1: PbftView,
    commit: Commit,
    res: Result<Vec<Action>, String>,
) -> bool {
    let accepted = p0.step == Step::ReceiveingCommit && !p0.commits.contains(commit.node_id)
        && signed_by(client, commit.node_id, commit_payload(commit@), commit@.signature);
    let commits = p0.commits.insert(commit.node_id);
    let decided = accepted && commits.len() >= commit_quorum(client.identities@.len());
    &&& res is Ok ==> quiet(res)
    &&& reliable && (p0.preprepare is Some ==> (last_block(c0) matches Some(Some(_)))) ==> res is Ok
    &&& !decided ==> res is Ok
    &&& !accepted ==> p1 == p0 && b1 == b0
    &&& accepted && !decided ==> p1 == (PbftView { commits, ..p0 }) && b1 == b0
    &&& decided ==> p1 == (PbftView {
        sequence_number: (p0.sequence_number + 1) as u64,
        commits,
        step: if res is Ok {
            Step::Okay
        } else {
            Step::ReceiveingCommit
        },
        ..p0
    })
    &&& decided && res is Err ==> b1 == b0
    &&& decided && res is Ok ==> b1 == match p0.preprepare {
        Some(pp) => if client.primary_of(variable_config.view_number) == client.local_node_id {
            requests_after(b0, pp.requests.len())
        } else {
            b0
        },
        None => b0,
    }
    &&& c1 == match p0.preprepare {
        Some(pp) => if decided && res is Ok {
            after_put(c0, pp.block)
        } else {
            c0
        },
        None => c0,
    }
}

/// A node counts a commit: while collecting commits, a commit signed by a
/// node not yet counted is counted; once 2f + 1 are counted, the sequence
/// number advances, the accepted proposal's block is appended to the chain,
/// the primary drops the requests it proposed, and the node is idle again.
pub fn commit_handler<D: KeyValueStore>(
    variable_config: &VariableConfig,
    client: &Client,
    state: &mut State<D>,
    pbft: &mut Pbft,
    commit: Commit,
) -> (res: Result<Vec<Action>, String>)
    requires
        client.well_formed(),
        old(pbft).step == Step::ReceiveingCommit && !old(pbft).commits@.contains(commit.node_id)
            ==> commit.node_id < client.identities@.len(),
        old(pbft).step == Step::ReceiveingCommit && !old(pbft).commits@.contains(commit.node_id)
            && signed_by(*client, commit.node_id, commit_payload(commit@), commit@.signature)
            && old(pbft).commits@.insert(commit.node_id).len() >= commit_quorum(
            client.identities@.len(),
        ) ==> old(pbft).sequence_number < u64::MAX,
    ensures
        commit_handled(
            *variable_config,
            *client,
            old(state).rocksdb.db.never_fails(),
            old(state).request_buffer@,
            final(state).request_buffer@,
            old(state).rocksdb.db.contents(),
            final(state).rocksdb.db.contents(),
            old(pbft)@,
            final(pbft)@,
            commit,
            res,
        ),
{
    let mut commit = commit;
    let ghost received = commit;
    if !(pbft.step == Step::ReceiveingCommit && !pbft.commits.contains(&commit.node_id)) {
        return Ok(Vec::new());
    }
    let signed = match verify_commit(public_key_at(client, commit.node_id), &mut commit) {
        Ok(b) => b,
        Err(e) => return Err(e),
    };
    assert(commit == received);
    if !signed {
        return Ok(Vec::new());
    }
    pbft.commits.insert(commit.node_id);
    if pbft.commits.len() < commits_needed(client) {
        return Ok(Vec::new());
    }
    pbft.sequence_number = pbft.sequence_number + 1;
    match &pbft.preprepare {
        Some(preprepare) => {
            match state.rocksdb.put_block(&preprepare.block) {
                Ok(()) => {},
                Err(e) => return Err(e),
            }
            if primary_is(client, variable_config.view_number) {
                let done = preprepare.requests.len();
                if done <= state.request_buffer.len() {
                    let rest = state.request_buffer.split_off(done);
                    state.request_buffer = rest;
                } else {
                    state.request_buffer = Vec::new();
                }
            }
        },
        None => {},
    }
    pbft.step = Step::Okay;
    Ok(Vec::new())
}

/// A reply is only noted.
pub fn reply_handler(reply: Reply) -> (res: Result<Vec<Action>, String>)
    ensures
        quiet(res),
{
    Ok(Vec::new())
}

/// What a node's handling of a `view_change` vote returns (`res`), and how it
/// leaves its variable configuration (`v0` before, `v1` after) and the
/// consensus state (`p0`, `p1`). A vote for view `view_number +
/// new_view_number`, cast in the node's own view by a node not yet counted
/// for that view and signed by it, is counted; once 2f + 1 nodes have voted
/// for a view the node takes it (keeping it in its configuration), and unless
/// it is that view's primary it asks the primary for its sequence number.
pub open spec fn view_change_handled(
    v0: VariableConfig,
    v1: VariableConfig,
    client: Client,
    p0: PbftView,
    p1: PbftView,
    view_change: ViewChange,
    res: Result<Vec<Action>, String>,
) -> bool {
    let m = view_change@;
    let target = (m.view_number + m.new_view_number) as u64;
    let counted = counted_for(p0.view_change_collect_map, target);
    let considered = p0.step != Step::ReceivingViewResponse && p0.step
        != Step::ReceivingStateResponse && p0.step != Step::ReceivingSyncResponse && m.view_number
        == p0.view_number && view_fits(m.view_number, m.new_view_number) && !counted.contains(
        m.node_id,
    );
    let accepted = considered && signed_by(client, m.node_id, view_change_payload(m), m.signature);
    let now_counted = counted.insert(m.node_id);
    let map = p0.view_change_collect_map.insert(target, now_counted);
    let decided = accepted && now_counted.len() >= commit_quorum(client.identities@.len());
    let primary = client.primary_of(target) == client.local_node_id;
    let changed = target != v0.view_number;
    &&& res is Ok
    &&& !accepted ==> quiet(res) && p1 == p0 && v1 == v0
    &&& accepted && !decided ==> quiet(res) && p1 == (PbftView { view_change_collect_map: map, ..p0 })
        && v1 == v0
    &&& decided ==> {
        &&& v1.view_number == target
        &&& p1 == (PbftView {
            view_change_collect_map: map,
            view_number: target,
            step: if primary {
                Step::Okay
            } else {
                Step::ReceivingStateResponse
            },
            ..p0
        })
        &&& res matches Ok(acts) && acts@.len() == (if changed {
            1int
        } else {
            0int
        }) + (if primary {
            0int
        } else {
            1int
        }) && (changed ==> saves_view(acts@[0], target)) && (!primary ==> asks_state(
            acts@[acts@.len() - 1],
            client.primary_of(target),
        ))
    }
}

/// The node has not started up yet: it still waits for views, states or blocks.
pub open spec fn catching_up(step: Step) -> bool {
    step == Step::ReceivingViewResponse || step == Step::ReceivingStateResponse || step
        == Step::ReceivingSyncResponse
}

/// Votes for view `target`, cast in the node's view and each signed by a
/// different node, handled one after another (`ps` and `vs` are the states
/// between them) by a node that has started up and counts none of them yet:
/// once 2f + 1 of them are handled the node has taken view `target`, and it
/// keeps it.
pub proof fn law_view_change_quorum(
    client: Client,
    vs: Seq<VariableConfig>,
    ps: Seq<PbftView>,
    votes: Seq<ViewChange>,
    results: Seq<Result<Vec<Action>, String>>,
    target: u64,
)
    requires
        ps.len() == votes.len() + 1,
        vs.len() == votes.len() + 1,
        results.len() == votes.len(),
        forall|i: int|
            0 <= i < votes.len() ==> #[trigger] view_change_handled(
                vs[i],
                vs[i + 1],
                client,
                ps[i],
                ps[i + 1],
                votes[i],
                results[i],
            ),
        forall|i: int|
            0 <= i < votes.len() ==> {
                let m = (#[trigger] votes[i])@;
                &&& m.view_number == ps[0].view_number
                &&& view_fits(m.view_number, m.new_view_number)
                &&& m.view_number + m.new_view_number == target
                &&& signed_by(client, m.node_id, view_change_payload(m), m.signature)
            },
        forall|i: int, j: int| 0 <= i < j < votes.len() ==> votes[i].node_id != votes[j].node_id,
        !catching_up(ps[0].step),
        counted_for(ps[0].view_change_collect_map, target) == Set::<u64>::empty(),
        votes.len() >= commit_quorum(client.identities@.len()),
    ensures
        vs[votes.len() as int].view_number == target,
        ps[votes.len() as int].view_number == target,
{
    assert(votes_tallied(client, vs, ps, votes, target, 0));
    lemma_view_change_votes_from(client, vs, ps, votes, results, target, 0);
}

/// Where the votes stand after the first `i` of them: either the node has
/// taken view `target`, or it is still in its first view and step and has
/// counted exactly the first `i` voters for `target`.
spec fn votes_tallied(
    client: Client,
    vs: Seq<VariableConfig>,
    ps: Seq<PbftView>,
    votes: Seq<ViewChange>,
    target: u64,
    i: int,
) -> bool {
    let counted = counted_for(ps[i].view_change_collect_map, target);
    ||| vs[i].view_number == target && ps[i].view_number == target
    ||| {
        &&& ps[i].view_number == ps[0].view_number
        &&& ps[i].step == ps[0].step
        &&& counted.finite()
        &&& counted.len() == i
        &&& i < commit_quorum(client.identities@.len())
        &&& forall|x: u64| #[trigger] counted.contains(x) ==> exists|j: int|
            0 <= j < i && votes[j].node_id == x
    }
}

proof fn lemma_view_change_votes_from(
    client: Client,
    vs: Seq<VariableConfig>,
    ps: Seq<PbftView>,
    votes: Seq<ViewChange>,
    results: Seq<Result<Vec<Action>, String>>,
    target: u64,
    i: int,
)
    requires
        ps.len() == votes.len() + 1,
        vs.len() == votes.len() + 1,
        results.len() == votes.len(),
        forall|k: int|
            0 <= k < votes.len() ==> #[trigger] view_change_handled(
                vs[k],
                vs[k + 1],
                client,
                ps[k],
                ps[k + 1],
                votes[k],
                results[k],
            ),
        forall|k: int|
            0 <= k < votes.len() ==> {
                let m = (#[trigger] votes[k])@;
                &&& m.view_number == ps[0].view_number
                &&& view_fits(m.view_number, m.new_view_number)
                &&& m.view_number + m.new_view_number == target
                &&& signed_by(client, m.node_id, view_change_payload(m), m.signature)
            },
        forall|k: int, j: int| 0 <= k < j < votes.len() ==> votes[k].node_id != votes[j].node_id,
        !catching_up(ps[0].step),
        votes.len() >= commit_quorum(client.identities@.len()),
        0 <= i <= votes.len(),
        votes_tallied(client, vs, ps, votes, target, i),
    ensures
        vs[votes.len() as int].view_number == target,
        ps[votes.len() as int].view_number == target,
    decreases votes.len() - i,
{
    if i < votes.len() {
        assert(view_change_handled(vs[i], vs[i + 1], client, ps[i], ps[i + 1], votes[i], results[i]));
        let m = votes[i]@;
        assert(m.view_number + m.new_view_number == target);
        let counted = counted_for(ps[i].view_change_collect_map, target);
        if !(vs[i].view_number == target && ps[i].view_number == target) {
            if counted.contains(m.node_id) {
                let j = choose|j: int| 0 <= j < i && votes[j].node_id == m.node_id;
                assert(votes[j].node_id != votes[i].node_id);
            }
            let now_counted = counted.insert(m.node_id);
            assert(now_counted.len() == i + 1);
            if i + 1 < commit_quorum(client.identities@.len()) {
                assert(counted_for(ps[i + 1].view_change_collect_map, target) == now_counted);
                assert forall|x: u64| #[trigger] now_counted.contains(x) implies exists|j: int|
                    0 <= j < i + 1 && votes[j].node_id == x by {
                    if x != m.node_id {
                        assert(counted.contains(x));
                    }
                }
            }
        }
        assert(votes_tallied(client, vs, ps, votes, target, i + 1));
        lemma_view_change_votes_from(client, vs, ps, votes, results, target, i + 1);
    }
}

/// A node counts a vote for a view change, and takes the view that 2f + 1
/// nodes vote for.
pub fn view_change_handler(
    variable_config: &mut VariableConfig,
    client: &Client,
    pbft: &mut Pbft,
    view_change: ViewChange,
) -> (res: Result<Vec<Action>, String>)
    requires
        client.well_formed(),
        ({
            let m = view_change@;
            let target = (m.view_number + m.new_view_number) as u64;
            old(pbft).step != Step::ReceivingViewResponse && old(pbft).step
                != Step::ReceivingStateResponse && old(pbft).step != Step::ReceivingSyncResponse
                && m.view_number == old(pbft).view_number && view_fits(m.view_number, m.new_view_number)
                && !counted_for(old(pbft)@.view_change_collect_map, target).contains(m.node_id)
                ==> m.node_id < client.identities@.len()
        }),
    ensures
        view_change_handled(
            *old(variable_config),
            *final(variable_config),
            *client,
            old(pbft)@,
            final(pbft)@,
            view_change,
            res,
        ),
{
    let mut view_change = view_change;
    let ghost received = view_change;
    if pbft.step == Step::ReceivingViewResponse || pbft.step == Step::ReceivingStateResponse
        || pbft.step == Step::ReceivingSyncResponse || view_change.view_number != pbft.view_number
        || view_change.new_view_number > u64::MAX - view_change.view_number {
        return Ok(Vec::new());
    }
    let target = view_change.view_number + view_change.new_view_number;
    let already = match pbft.view_change_collect_map.get(&target) {
        Some(s) => s.contains(&view_change.node_id),
        None => false,
    };
    assert(already == counted_for(old(pbft)@.view_change_collect_map, target).contains(
        view_change.node_id,
    ));
    if already {
        return Ok(Vec::new());
    }
    let signed = match verify_view_change(public_key_at(client, view_change.node_id), &mut view_change) {
        Ok(b) => b,
        Err(e) => return Err(e),
    };
    assert(view_change == received);
    if !signed {
        return Ok(Vec::new());
    }
    let mut counted = match pbft.view_change_collect_map.remove(&target) {
        Some(s) => s,
        None => HashSet::new(),
    };
    assert(counted@ == counted_for(old(pbft)@.view_change_collect_map, target));
    counted.insert(view_change.node_id);
    let count = counted.len();
    pbft.view_change_collect_map.insert(target, counted);
    assert(collected_sets(pbft.view_change_collect_map@) =~= old(
        pbft,
    )@.view_change_collect_map.insert(target, pbft.view_change_collect_map@[target]@));
    if count < commits_needed(client) {
        return Ok(Vec::new());
    }
    let mut acts: Vec<Action> = Vec::new();
    if target != variable_config.view_number {
        acts.push(Action::SaveViewNumber(target));
    }
    variable_config.view_number = target;
    pbft.view_number = target;
    if primary_is(client, target) {
        pbft.step = Step::Okay;
        return Ok(acts);
    }
    pbft.step = Step::ReceivingStateResponse;
    let primary = primary_id(client, target);
    acts.push(
        Action::Send {
            target: Target::Node(primary),
            message_type: MessageType::StateRequest,
            content: Vec::new(),
        },
    );
    Ok(acts)
}

/// What a node's handling of `heartbeat` returns, in the consensus state `pbft`.
pub open spec fn hearbeat_handled(
    variable_config: VariableConfig,
    client: Client,
    pbft: PbftView,
    heartbeat: Hearbeat,
    res: Result<Vec<Action>, String>,
) -> bool {
    let alive = heartbeat.view_number == variable_config.view_number && pbft.step == Step::Okay
        && signed_by(
        client,
        client.primary_of(variable_config.view_number),
        hearbeat_payload(heartbeat@),
        heartbeat@.signature,
    );
    &&& alive ==> resets_timer(res)
    &&& !alive ==> quiet(res)
}

/// A heartbeat of the current view's primary, received while idle, restarts
/// the timer after which a backup suspects the primary.
pub fn hearbeat_handler(
    variable_config: &VariableConfig,
    client: &Client,
    pbft: &Pbft,
    heartbeat: Hearbeat,
) -> (res: Result<Vec<Action>, String>)
    requires
        client.well_formed(),
    ensures
        hearbeat_handled(*variable_config, *client, pbft@, heartbeat, res),
{
    let mut heartbeat = heartbeat;
    let ghost received = heartbeat;
    if !(heartbeat.view_number == variable_config.view_number && pbft.step == Step::Okay) {
        return Ok(Vec::new());
    }
    let primary = primary_id(client, variable_config.view_number);
    let alive = match verify_heartbeat(public_key_at(client, primary), &mut heartbeat) {
        Ok(b) => b,
        Err(e) => return Err(e),
    };
    assert(heartbeat == received);
    if !alive {
        return Ok(Vec::new());
    }
    let mut acts: Vec<Action> = Vec::new();
    acts.push(Action::ResetViewChangeTimer);
    Ok(acts)
}

/// The step in which an announcement of a view change is considered: a view
/// change that has lasted more than a second waits for announcements.
pub open spec fn step_for_announcement(p: PbftView, now: u64) -> Step {
    if p.step == Step::ReceivingViewChange && timed_out(p.start_time, now) {
        Step::ReceivingNewView
    } else {
        p.step
    }
}

/// Whether the view change `target` may be voted for without passing the
/// greatest view number.
pub open spec fn view_fits(view_number: u64, offset: u64) -> bool {
    view_number + offset <= u64::MAX
}

/// The announcement is for the node's view and at least its sequence number,
/// and is signed by the node it names.
pub open spec fn new_view_signed(client: Client, new_view: NewView, p: PbftView) -> bool {
    &&& new_view.view_number == p.view_number
    &&& new_view.sequence_number >= p.sequence_number
    &&& signed_by(client, new_view.node_id, new_view_payload(new_view@), new_view@.signature)
}

/// What a node's handling of `new_view` returns (`res`), and how it leaves the
/// consensus state (`p0` before, `p1` after).
pub open spec fn new_view_handled(
    client: Client,
    p0: PbftView,
    p1: PbftView,
    new_view: NewView,
    now: u64,
    res: Result<Vec<Action>, String>,
) -> bool {
    let considered = new_view.view_number == p0.view_number && new_view.sequence_number
        >= p0.sequence_number;
    let signed = signed_by(
        client,
        new_view.node_id,
        new_view_payload(new_view@),
        new_view@.signature,
    );
    let step = step_for_announcement(p0, now);
    let answers = considered && signed && step == Step::ReceivingNewView;
    let vote = ViewChangeView {
        view_number: p0.view_number,
        sequence_number: p0.sequence_number,
        node_id: client.local_node_id,
        new_view_number: new_view.node_id,
        signature: Seq::empty(),
    };
    &&& !(considered && signed) ==> quiet(res) && p1 == p0
    &&& considered && signed && step != Step::ReceivingNewView ==> quiet(res) && p1 == (PbftView {
        step,
        ..p0
    })
    &&& answers ==> {
        &&& p1 == (PbftView {
            step: Step::ReceivingViewChange,
            start_time: now,
            view_change_collect_map: Map::empty(),
            new_view_number: (p0.new_view_number + new_view.node_id) as u64,
            ..p0
        })
        &&& res matches Ok(acts) ==> (signed_view_change(client.private_key@, vote) matches Some(v)
            && sends_one(acts@, Target::Multicast, MessageType::ViewChange, enc_view_change(v)))
        &&& signed_view_change(client.private_key@, vote) is Some ==> res is Ok
    }
}

/// A node answers another node's announcement of a view change for its own
/// view and at least its sequence number: when it waits for announcements,
/// it checks the announcement's signature, restarts the view change, adds the
/// announcer's id to the view it proposes, and sends all nodes its vote for
/// the announcer as a `ViewChange`.
pub fn new_view_handler(
    client: &Client,
    pbft: &mut Pbft,
    new_view: NewView,
    now: u64,
) -> (res: Result<Vec<Action>, String>)
    requires
        new_view.view_number == old(pbft).view_number && new_view.sequence_number >= old(
            pbft,
        ).sequence_number ==> new_view.node_id < client.identities@.len(),
        new_view_signed(*client, new_view, old(pbft)@) && old(pbft).step
            == Step::ReceivingViewChange ==> now >= old(pbft).start_time,
        new_view_signed(*client, new_view, old(pbft)@) && step_for_announcement(old(pbft)@, now)
            == Step::ReceivingNewView ==> old(pbft).new_view_number + new_view.node_id <= u64::MAX,
    ensures
        new_view_handled(*client, old(pbft)@, final(pbft)@, new_view, now, res),
{
    let mut new_view = new_view;
    let ghost received = new_view;
    if new_view.view_number != pbft.view_number || new_view.sequence_number
        < pbft.sequence_number {
        return Ok(Vec::new());
    }
    let signed = match verify_new_view(public_key_at(client, new_view.node_id), &mut new_view) {
        Ok(b) => b,
        Err(e) => return Err(e),
    };
    assert(new_view == received);
    if !signed {
        return Ok(Vec::new());
    }
    if pbft.step == Step::ReceivingViewChange && has_timed_out(pbft.start_time, now) {
        pbft.step = Step::ReceivingNewView;
    }
    if pbft.step != Step::ReceivingNewView {
        return Ok(Vec::new());
    }
    pbft.step = Step::ReceivingViewChange;
    pbft.start_time = now;
    pbft.view_change_collect_map.clear();
    assert(collected_sets(pbft.view_change_collect_map@) =~= Map::<u64, Set<u64>>::empty());
    pbft.new_view_number = pbft.new_view_number + new_view.node_id;
    let mut view_change = ViewChange {
        view_number: pbft.view_number,
        sequence_number: pbft.sequence_number,
        node_id: client.local_node_id,
        new_view_number: new_view.node_id,
        signature: Vec::new(),
    };
    match sign_view_change(client.private_key.as_str(), &mut view_change) {
        Ok(()) => {},
        Err(e) => return Err(e),
    }
    let content = encode_view_change(&view_change);
    let mut acts: Vec<Action> = Vec::new();
    acts.push(Action::Send { target: Target::Multicast, message_type: MessageType::ViewChange, content });
    Ok(acts)
}

/// What a node's answer to a view request is: its view, signed, to the sender.
pub open spec fn view_request_handled(
    variable_config: VariableConfig,
    client: Client,
    res: Result<Vec<Action>, String>,
) -> bool {
    let answer = ViewResponseView {
        view_number: variable_config.view_number,
        node_id: client.local_node_id,
        signature: Seq::empty(),
    };
    match res {
        Ok(acts) => signed_view_response(client.private_key@, answer) matches Some(r) && sends_one(
            acts@,
            Target::Sender,
            MessageType::ViewResponse,
            enc_view_response(r),
        ),
        Err(_) => signed_view_response(client.private_key@, answer) is None,
    }
}

/// A node answers a starting node's question for the view with its own view.
pub fn view_request_handler(
    variable_config: &VariableConfig,
    client: &Client,
    view_request: ViewRequest,
) -> (res: Result<Vec<Action>, String>)
    ensures
        view_request_handled(*variable_config, *client, res),
{
    let mut view_response = ViewResponse {
        view_number: variable_config.view_number,
        node_id: client.local_node_id,
        signature: Vec::new(),
    };
    match sign_view_response(client.private_key.as_str(), &mut view_response) {
        Ok(()) => {},
        Err(e) => return Err(e),
    }
    let content = encode_view_response(&view_response);
    let mut acts: Vec<Action> = Vec::new();
    acts.push(
        Action::Send { target: Target::Sender, message_type: MessageType::ViewResponse, content },
    );
    Ok(acts)
}

/// The ids counted so far for a view.
pub open spec fn counted_for(map: Map<u64, Set<u64>>, view_number: u64) -> Set<u64> {
    if map.dom().contains(view_number) {
        map[view_number]
    } else {
        Set::empty()
    }
}

/// What a node's handling of `view_response` returns (`res`), and how it
/// leaves its variable configuration (`v0` before, `v1` after) and the
/// consensus state (`p0`, `p1`).
pub open spec fn view_response_handled(
    v0: VariableConfig,
    v1: VariableConfig,
    client: Client,
    p0: PbftView,
    p1: PbftView,
    view_response: ViewResponse,
    res: Result<Vec<Action>, String>,
) -> bool {
    let vr = view_response@;
    let counted = counted_for(p0.view_change_collect_map, vr.view_number);
    let accepted = !counted.contains(vr.node_id) && signed_by(
        client,
        vr.node_id,
        view_response_payload(vr),
        vr.signature,
    );
    let now_counted = if accepted {
        counted.insert(vr.node_id)
    } else {
        counted
    };
    let map = p0.view_change_collect_map.insert(vr.view_number, now_counted);
    let decided = accepted && now_counted.len() >= commit_quorum(client.identities@.len());
    let primary = client.primary_of(vr.view_number) == client.local_node_id;
    let changed = vr.view_number != v0.view_number;
    &&& res is Ok
    &&& p0.step != Step::ReceivingViewResponse ==> quiet(res) && p1 == p0 && v1 == v0
    &&& p0.step == Step::ReceivingViewResponse && !decided ==> quiet(res) && p1 == (PbftView {
        view_change_collect_map: map,
        ..p0
    }) && v1 == v0
    &&& p0.step == Step::ReceivingViewResponse && decided && primary ==> quiet(res) && p1 == (
    PbftView { view_change_collect_map: map, step: Step::Okay, ..p0 }) && v1 == v0
    &&& p0.step == Step::ReceivingViewResponse && decided && !primary ==> {
        &&& v1.view_number == vr.view_number
        &&& p1 == (PbftView {
            view_change_collect_map: map,
            step: Step::ReceivingStateResponse,
            view_number: if changed {
                vr.view_number
            } else {
                p0.view_number
            },
            ..p0
        })
        &&& res matches Ok(acts) && acts@.len() == (if changed {
            2int
        } else {
            1int
        }) && (changed ==> saves_view(acts@[0], vr.view_number)) && asks_state(
            acts@[acts@.len() - 1],
            client.primary_of(vr.view_number),
        )
    }
}

/// A starting node counts the views that the other nodes report: once 2f + 1
/// nodes report one view, it takes that view (keeping it in its
/// configuration); the view's primary is then ready, and a backup asks the
/// primary for its sequence number.
pub fn view_response_handler(
    variable_config: &mut VariableConfig,
    client: &Client,
    pbft: &mut Pbft,
    view_response: ViewResponse,
) -> (res: Result<Vec<Action>, String>)
    requires
        client.well_formed(),
        old(pbft).step == Step::ReceivingViewResponse && !counted_for(
            old(pbft)@.view_change_collect_map,
            view_response.view_number,
        ).contains(view_response.node_id) ==> view_response.node_id < client.identities@.len(),
    ensures
        view_response_handled(
            *old(variable_config),
            *final(variable_config),
            *client,
            old(pbft)@,
            final(pbft)@,
            view_response,
            res,
        ),
{
    let mut view_response = view_response;
    let ghost received = view_response;
    if pbft.step != Step::ReceivingViewResponse {
        return Ok(Vec::new());
    }
    let view_number = view_response.view_number;
    let mut counted = match pbft.view_change_collect_map.remove(&view_number) {
        Some(s) => s,
        None => HashSet::new(),
    };
    assert(counted@ == counted_for(old(pbft)@.view_change_collect_map, view_number));
    let mut accepted = false;
    if !counted.contains(&view_response.node_id) {
        accepted = match verify_view_response(public_key_at(client, view_response.node_id), &mut view_response) {
            Ok(b) => b,
            Err(e) => {
                pbft.view_change_collect_map.insert(view_number, counted);
                return Err(e);
            },
        };
        assert(view_response == received);
        if accepted {
            counted.insert(view_response.node_id);
        }
    }
    let count = counted.len();
    pbft.view_change_collect_map.insert(view_number, counted);
    assert(collected_sets(pbft.view_change_collect_map@) =~= old(
        pbft,
    )@.view_change_collect_map.insert(view_number, pbft.view_change_collect_map@[view_number]@));
    if !accepted || count < commits_needed(client) {
        return Ok(Vec::new());
    }
    if primary_is(client, view_number) {
        pbft.step = Step::Okay;
        return Ok(Vec::new());
    }
    let mut acts: Vec<Action> = Vec::new();
    if view_number != variable_config.view_number {
        variable_config.view_number = view_number;
        pbft.view_number = view_number;
        acts.push(Action::SaveViewNumber(view_number));
    }
    pbft.step = Step::ReceivingStateResponse;
    let primary = primary_id(client, variable_config.view_number);
    acts.push(
        Action::Send {
            target: Target::Node(primary),
            message_type: MessageType::StateRequest,
            content: Vec::new(),
        },
    );
    Ok(acts)
}

/// What a node's answer to a state request is: its sequence number, signed,
/// to the sender.
pub open spec fn state_request_handled(
    client: Client,
    pbft: PbftView,
    res: Result<Vec<Action>, String>,
) -> bool {
    let answer = StateResponseView { sequence_number: pbft.sequence_number, signature: Seq::empty() };
    match res {
        Ok(acts) => signed_state_response(client.private_key@, answer) matches Some(r) && sends_one(
            acts@,
            Target::Sender,
            MessageType::StateResponse,
            enc_state_response(r),
        ),
        Err(_) => signed_state_response(client.private_key@, answer) is None,
    }
}

/// A node answers a question for its sequence number.
pub fn state_request_handler(
    client: &Client,
    pbft: &Pbft,
    state_request: StateRequest,
) -> (res: Result<Vec<Action>, String>)
    ensures
        state_request_handled(*client, pbft@, res),
{
    let mut state_response = StateResponse {
        sequence_number: pbft.sequence_number,
        signature: Vec::new(),
    };
    match sign_state_response(client.private_key.as_str(), &mut state_response) {
        Ok(()) => {},
        Err(e) => return Err(e),
    }
    let content = encode_state_response(&state_response);
    let mut acts: Vec<Action> = Vec::new();
    acts.push(
        Action::Send { target: Target::Sender, message_type: MessageType::StateResponse, content },
    );
    Ok(acts)
}

/// The blocks a node asks for when it is `behind` the primary's sequence
/// number: the next ones, fifty-one at most.
pub open spec fn sync_range(own: u64, primary: u64) -> SyncRequestView {
    SyncRequestView {
        from_index: (own + 1) as u64,
        to_index: if primary <= own + 51 {
            primary
        } else {
            (own + 51) as u64
        },
    }
}

/// What a node's handling of `state_response` returns (`res`), and how it
/// leaves the consensus state (`p0` before, `p1` after).
pub open spec fn state_response_handled(
    variable_config: VariableConfig,
    client: Client,
    p0: PbftView,
    p1: PbftView,
    state_response: StateResponse,
    res: Result<Vec<Action>, String>,
) -> bool {
    let behind = p0.step == Step::ReceivingStateResponse && state_response.sequence_number
        > p0.sequence_number && signed_by(
        client,
        client.primary_of(variable_config.view_number),
        state_response_payload(state_response@),
        state_response@.signature,
    );
    &&& behind ==> p1 == (PbftView { step: Step::ReceivingSyncResponse, ..p0 }) && (res matches Ok(
        acts,
    ) && sends_one(
        acts@,
        Target::Sender,
        MessageType::SyncRequest,
        enc_sync_request(sync_range(p0.sequence_number, state_response.sequence_number)),
    ))
    &&& !behind ==> quiet(res) && p1 == (PbftView { step: Step::Okay, ..p0 })
}

/// A node compares its sequence number with the primary's: when it is
/// behind, it asks the primary for the blocks it lacks; otherwise it is
/// ready.
pub fn state_response_handler(
    variable_config: &VariableConfig,
    client: &Client,
    pbft: &mut Pbft,
    state_response: StateResponse,
) -> (res: Result<Vec<Action>, String>)
    requires
        client.well_formed(),
    ensures
        state_response_handled(*variable_config, *client, old(pbft)@, final(pbft)@, state_response, res),
{
    let mut state_response = state_response;
    let ghost received = state_response;
    let mut behind = false;
    if pbft.step == Step::ReceivingStateResponse && state_response.sequence_number
        > pbft.sequence_number {
        let primary = primary_id(client, variable_config.view_number);
        behind = match verify_state_response(public_key_at(client, primary), &mut state_response) {
            Ok(b) => b,
            Err(e) => return Err(e),
        };
        assert(state_response == received);
    }
    if !behind {
        pbft.step = Step::Okay;
        return Ok(Vec::new());
    }
    let own = pbft.sequence_number;
    let to_index = if state_response.sequence_number - own <= 51 {
        state_response.sequence_number
    } else {
        own + 51
    };
    let sync_request = SyncRequest { from_index: own + 1, to_index };
    pbft.step = Step::ReceivingSyncResponse;
    let content = encode_sync_request(&sync_request);
    let mut acts: Vec<Action> = Vec::new();
    acts.push(Action::Send { target: Target::Sender, message_type: MessageType::SyncRequest, content });
    Ok(acts)
}

/// The last index a sync request is answered up to: fifty blocks past its first at most.
pub open spec fn sync_end(from_index: u64, to_index: u64) -> int {
    if to_index <= from_index + 50 {
        to_index as int
    } else {
        from_index + 50
    }
}

/// How many blocks a sync request from `from` to `to` asks for: those up to
/// `to`, but at most 51.
pub open spec fn sync_count(from: u64, to: u64) -> nat {
    if from <= sync_end(from, to) {
        (sync_end(from, to) - from + 1) as nat
    } else {
        0
    }
}

/// The first index from `from` on, among `count`, at which the database
/// holding `c` stores no block, where each one before it is stored.
pub open spec fn first_gap(c: Map<Seq<u8>, Seq<u8>>, from: u64, count: nat, k: u64) -> bool {
    &&& from <= k < from + count
    &&& block_at(c, k) == Some(None::<BlockView>)
    &&& forall|i: u64| from <= i < k ==> (#[trigger] block_at(c, i) matches Some(Some(_)))
}

/// The answer to `sync_request` is owed where the database holds `c`: every
/// block asked for is stored and readable, and the node's key signs the answer.
pub open spec fn sync_answer_owed(
    client: Client,
    c: Map<Seq<u8>, Seq<u8>>,
    sync_request: SyncRequest,
) -> bool {
    let from = sync_request.from_index;
    let count = sync_count(from, sync_request.to_index);
    &&& forall|i: u64| from <= i < from + count ==> (#[trigger] block_at(c, i) matches Some(Some(_)))
    &&& signed_sync_response(
        client.private_key@,
        SyncResponseView { blocks: stored_blocks(c, from, count), signature: Seq::empty() },
    ) is Some
}

/// What a node's answer to `sync_request` is, where its database holds `c`:
/// the blocks asked for, signed, to the sender; an error where one of them
/// is not stored or cannot be read.
pub open spec fn sync_request_handled(
    client: Client,
    reliable: bool,
    c: Map<Seq<u8>, Seq<u8>>,
    sync_request: SyncRequest,
    res: Result<Vec<Action>, String>,
) -> bool {
    let from = sync_request.from_index;
    let count = sync_count(from, sync_request.to_index);
    let all_stored = forall|i: u64|
        from <= i < from + count ==> (#[trigger] block_at(c, i) matches Some(Some(_)));
    let answer = SyncResponseView { blocks: stored_blocks(c, from, count), signature: Seq::empty() };
    &&& !all_stored ==> res is Err
    &&& all_stored && signed_sync_response(client.private_key@, answer) is None ==> res is Err
    &&& reliable && all_stored && signed_sync_response(client.private_key@, answer) is Some ==> res is Ok
    &&& reliable && (exists|k: u64| #[trigger] first_gap(c, from, count, k)) ==> (res matches Err(e)
        && e@ == "区间查询无区块"@)
    &&& res matches Ok(acts) ==> all_stored && (signed_sync_response(client.private_key@, answer) matches Some(r)
        && sends_one(acts@, Target::Sender, MessageType::SyncResponse, enc_sync_response(r)))
}

/// A node answers a request for blocks: it sends the blocks from the first
/// asked for up to the last, fifty-one at most, and fails if it lacks one.
pub fn sync_request_handler<D: KeyValueStore>(
    client: &Client,
    state: &State<D>,
    sync_request: SyncRequest,
) -> (res: Result<Vec<Action>, String>)
    ensures
        sync_request_handled(
            *client,
            state.rocksdb.db.never_fails(),
            state.rocksdb.db.contents(),
            sync_request,
            res,
        ),
{
    let from = sync_request.from_index;
    let to = if sync_request.to_index <= from || sync_request.to_index - from <= 50 {
        sync_request.to_index
    } else {
        from + 50
    };
    let ghost c = state.rocksdb.db.contents();
    let ghost count = sync_count(from, sync_request.to_index);
    let mut blocks: Vec<Block> = Vec::new();
    if from <= to {
        let mut i = from;
        loop
            invariant_except_break
                from <= i <= to,
                blocks@.len() == i - from,
            invariant
                c == state.rocksdb.db.contents(),
                count == to - from + 1,
                count == sync_count(from, sync_request.to_index),
                from == sync_request.from_index,
                state.rocksdb.db.never_fails() && sync_answer_owed(*client, c, sync_request) ==> forall|
                    k: u64,
                | from <= k <= to ==> (#[trigger] block_at(c, k) matches Some(Some(_))),
                forall|k: u64| from <= k < i ==> (#[trigger] block_at(c, k) matches Some(Some(_))),
                forall|j: int|
                    0 <= j < blocks@.len() ==> block_at(c, (from + j) as u64) == Some(
                        Some(#[trigger] blocks@[j]@),
                    ),
            ensures
                blocks@.len() == to - from + 1,
            decreases to - i,
        {
            let block = match state.rocksdb.get_block_by_index(i) {
                Ok(Some(b)) => b,
                Ok(None) => return Err("区间查询无区块".to_string()),
                Err(e) => {
                    proof {
                        if state.rocksdb.db.never_fails() && exists|k: u64| #[trigger]
                            first_gap(c, from, count, k) {
                            let k = choose|k: u64| #[trigger] first_gap(c, from, count, k);
                            if k < i {
                                assert(block_at(c, k) matches Some(Some(_)));
                            } else if k > i {
                                assert(block_at(c, i) matches Some(Some(_)));
                            } else {
                                assert(block_at(c, i) is Some);
                            }
                        }
                    }
                    return Err(e);
                },
            };
            assert(block_at(c, (from + (i - from)) as u64) == Some(Some(block@)));
            blocks.push(block);
            if i == to {
                break;
            }
            i = i + 1;
        }
    }
    proof {
        assert(blocks@.len() == count);
        assert forall|i: u64| from <= i < from + count implies (#[trigger] block_at(c, i) matches Some(
            Some(_),
        )) by {
            let j = i - from;
            assert(block_at(c, (from + j) as u64) == Some(Some(blocks@[j]@)));
        }
        assert(block_views(blocks@) =~= stored_blocks(c, from, count));
    }
    let mut sync_response = SyncResponse { blocks, signature: Vec::new() };
    assert(sync_response@ == SyncResponseView {
        blocks: stored_blocks(c, from, count),
        signature: Seq::empty(),
    });
    match sign_sync_response(client.private_key.as_str(), &mut sync_response) {
        Ok(()) => {},
        Err(e) => return Err(e),
    }
    let content = encode_sync_response(&sync_response);
    let mut acts: Vec<Action> = Vec::new();
    acts.push(Action::Send { target: Target::Sender, message_type: MessageType::SyncResponse, content });
    Ok(acts)
}

/// What a node's handling of `sync_response` returns (`res`), and how it
/// leaves the pending requests (`b0` before, `b1` after), its database (`c0`,
/// `c1`) and the consensus state (`p0`, `p1`).
pub open spec fn sync_response_handled(
    variable_config: VariableConfig,
    client: Client,
    reliable: bool,
    b0: Seq<Request>,
    b1: Seq<Request>,
    c0: Map<Seq<u8>, Seq<u8>>,
    c1: Map<Seq<u8>, Seq<u8>>,
    p0: PbftView,
    p1: PbftView,
    sync_response: SyncResponse,
    res: Result<Vec<Action>, String>,
) -> bool {
    let accepted = p0.step == Step::ReceivingSyncResponse && signed_by(
        client,
        client.primary_of(variable_config.view_number),
        sync_response_payload(sync_response@),
        sync_response@.signature,
    );
    let blocks = sync_response@.blocks;
    &&& b1 == b0
    &&& reliable && accepted && (last_block(c0) matches Some(Some(_))) ==> res is Ok
    &&& !accepted ==> quiet(res) && p1 == p0 && c1 == c0
    &&& accepted && res is Ok ==> c1 == after_puts(c0, blocks) && (last_block(after_puts(c0, blocks)) matches Some(
        Some(last),
    ) && p1 == (PbftView {
        step: Step::ReceivingStateResponse,
        sequence_number: last.index,
        ..p0
    })) && (res matches Ok(acts) && acts@.len() == 1 && asks_state(
        acts@[0],
        client.primary_of(variable_config.view_number),
    ))
    &&& accepted && res is Err ==> p1 == p0 && exists|k: int|
        0 <= k <= blocks.len() && c1 == after_puts(c0, #[trigger] blocks.take(k))
}

/// A node that waits for blocks takes those the primary signed: it appends
/// each one that follows its chain, takes the index of its last block as its
/// sequence number, and asks the primary for its sequence number again.
pub fn sync_response_handler<D: KeyValueStore>(
    variable_config: &VariableConfig,
    client: &Client,
    state: &mut State<D>,
    pbft: &mut Pbft,
    sync_response: SyncResponse,
) -> (res: Result<Vec<Action>, String>)
    requires
        client.well_formed(),
    ensures
        sync_response_handled(
            *variable_config,
            *client,
            old(state).rocksdb.db.never_fails(),
            old(state).request_buffer@,
            final(state).request_buffer@,
            old(state).rocksdb.db.contents(),
            final(state).rocksdb.db.contents(),
            old(pbft)@,
            final(pbft)@,
            sync_response,
            res,
        ),
{
    let mut sync_response = sync_response;
    let ghost received = sync_response;
    if pbft.step != Step::ReceivingSyncResponse {
        return Ok(Vec::new());
    }
    let primary = primary_id(client, variable_config.view_number);
    let accepted = match verify_sync_response(public_key_at(client, primary), &mut sync_response) {
        Ok(b) => b,
        Err(e) => return Err(e),
    };
    assert(sync_response == received);
    if !accepted {
        return Ok(Vec::new());
    }
    let ghost c = state.rocksdb.db.contents();
    let ghost blocks = sync_response@.blocks;
    let mut i: usize = 0;
    assert(blocks.take(0) =~= Seq::<BlockView>::empty());
    #[verifier::loop_isolation(false)]
    while i < sync_response.blocks.len()
        invariant
            pbft@ == old(pbft)@,
            i <= blocks.len(),
            blocks == sync_response@.blocks,
            state.request_buffer == old(state).request_buffer,
            state.rocksdb.db.contents() == after_puts(c, blocks.take(i as int)),
            state.rocksdb.db.never_fails() == old(state).rocksdb.db.never_fails(),
            last_block(c) matches Some(Some(_)) ==> (last_block(state.rocksdb.db.contents()) matches Some(
                Some(_),
            )),
        decreases sync_response.blocks@.len() - i,
    {
        assert(blocks.take(i + 1).drop_last() =~= blocks.take(i as int));
        assert(blocks[i as int] == sync_response.blocks@[i as int]@);
        block_fits_exec(&sync_response.blocks[i]);
        proof {
            lemma_put_keeps_last(state.rocksdb.db.contents(), blocks[i as int]);
        }
        match state.rocksdb.put_block(&sync_response.blocks[i]) {
            Ok(()) => {},
            Err(e) => return Err(e),
        }
        i = i + 1;
    }
    assert(blocks.take(i as int) =~= blocks);
    let last = match state.rocksdb.get_last_block() {
        Ok(Some(b)) => b,
        Ok(None) => return Err("缺失创世区块".to_string()),
        Err(e) => return Err(e),
    };
    pbft.sequence_number = last.index;
    pbft.step = Step::ReceivingStateResponse;
    let mut acts: Vec<Action> = Vec::new();
    acts.push(
        Action::Send {
            target: Target::Node(primary),
            message_type: MessageType::StateRequest,
            content: Vec::new(),
        },
    );
    Ok(acts)
}


/// The pending requests stay within three blocks' worth: a request joins them
/// only while there are fewer, and a proposal copies them without taking any.
pub proof fn law_request_keeps_pending_bounded(
    constant_config: ConstantConfig,
    variable_config: VariableConfig,
    client: Client,
    c0: Map<Seq<u8>, Seq<u8>>,
    b0: Seq<Request>,
    b1: Seq<Request>,
    p0: PbftView,
    p1: PbftView,
    request: Request,
    now: u64,
    res: Result<Vec<Action>, String>,
)
    requires
        b0.len() <= 3 * constant_config.block_size,
        request_handled(constant_config, variable_config, client, c0, b0, b1, p0, p1, request, now, res),
    ensures
        b1.len() <= 3 * constant_config.block_size,
        b1 == b0 || b1 == b0.push(request),
{
}

/// A view response handled twice in a row is counted once: the second
/// handling changes nothing and sends nothing.
pub proof fn law_view_response_counted_once(
    v0: VariableConfig,
    v1: VariableConfig,
    v2: VariableConfig,
    client: Client,
    p0: PbftView,
    p1: PbftView,
    p2: PbftView,
    view_response: ViewResponse,
    res1: Result<Vec<Action>, String>,
    res2: Result<Vec<Action>, String>,
)
    requires
        view_response_handled(v0, v1, client, p0, p1, view_response, res1),
        view_response_handled(v1, v2, client, p1, p2, view_response, res2),
    ensures
        p2 == p1,
        v2 == v1,
        quiet(res2),
{
    let vr = view_response@;
    if p0.step == Step::ReceivingViewResponse && p1.step == Step::ReceivingViewResponse {
        let counted = counted_for(p1.view_change_collect_map, vr.view_number);
        assert(p1.view_change_collect_map.dom().contains(vr.view_number));
        assert(p1.view_change_collect_map.insert(vr.view_number, counted) =~= p1.view_change_collect_map);
    }
}

/// The sequence number stays the index of the last stored block: when a
/// commit quorum accepts a proposal whose block follows the last one, that
/// block becomes the last one and the sequence number moves on with it.
pub proof fn law_commit_keeps_sequence_at_last_block(
    variable_config: VariableConfig,
    client: Client,
    reliable: bool,
    b0: Seq<Request>,
    b1: Seq<Request>,
    c0: Map<Seq<u8>, Seq<u8>>,
    c1: Map<Seq<u8>, Seq<u8>>,
    p0: PbftView,
    p1: PbftView,
    commit: Commit,
    res: Result<Vec<Action>, String>,
)
    requires
        commit_handled(variable_config, client, reliable, b0, b1, c0, c1, p0, p1, commit, res),
        res is Ok,
        last_block(c0) matches Some(Some(last)) && last.index == p0.sequence_number,
        p0.preprepare matches Some(pp) && block_fits(pp.block) && (last_block(c0) matches Some(
            Some(last),
        ) && follows(last, pp.block)),
    ensures
        last_block(c1) matches Some(Some(l)) && l.index == p1.sequence_number,
        p1.sequence_number != p0.sequence_number ==> (p0.preprepare matches Some(pp) && last_block(c1)
            == Some(Some(pp.block))),
{
    law_put_block_reads_back(c0, p0.preprepare.unwrap().block);
}


/// A round that stalls, collecting prepares or commits, is given up after a
/// second: a signed request that reaches the primary then, with a block's
/// worth of requests pending, starts a new round and proposes them.
pub proof fn law_stalled_round_gives_way_to_a_proposal(
    constant_config: ConstantConfig,
    variable_config: VariableConfig,
    client: Client,
    c0: Map<Seq<u8>, Seq<u8>>,
    b0: Seq<Request>,
    b1: Seq<Request>,
    p0: PbftView,
    p1: PbftView,
    request: Request,
    now: u64,
    res: Result<Vec<Action>, String>,
)
    requires
        request_handled(constant_config, variable_config, client, c0, b0, b1, p0, p1, request, now, res),
        client.primary_of(variable_config.view_number) == client.local_node_id,
        request_signed(client, request@),
        p0.step == Step::ReceivingPrepare || p0.step == Step::ReceiveingCommit,
        now - p0.start_time > 1,
        b0.len() + 1 >= constant_config.block_size,
    ensures
        p1.step == Step::ReceivingPrepare,
        p1.start_time == now,
        p1.prepares == Set::<u64>::empty(),
        p1.commits == Set::<u64>::empty(),
        b1 == (if b0.len() < 3 * constant_config.block_size {
            b0.push(request)
        } else {
            b0
        }),
        res matches Ok(acts) ==> (p1.preprepare matches Some(pp) && sends_one(
            acts@,
            Target::Multicast,
            MessageType::PrePrepare,
            enc_preprepare(pp),
        )),
{
}

/// A round that stalls, collecting prepares or commits, is given up after a
/// second: a backup then either takes a fitting proposal, starting a new
/// round at `now`, or is idle again.
pub proof fn law_stalled_round_is_given_up_by_a_backup(
    variable_config: VariableConfig,
    client: Client,
    reliable: bool,
    c: Map<Seq<u8>, Seq<u8>>,
    p0: PbftView,
    p1: PbftView,
    preprepare: PrePrepare,
    now: u64,
    res: Result<Vec<Action>, String>,
)
    requires
        preprepare_handled(variable_config, client, reliable, c, p0, p1, preprepare, now, res),
        client.primary_of(variable_config.view_number) != client.local_node_id,
        p0.step == Step::ReceivingPrepare || p0.step == Step::ReceiveingCommit,
        now - p0.start_time > 1,
    ensures
        p1.step == Step::Okay || (p1.step == Step::ReceivingPrepare && p1.start_time == now
            && p1.preprepare == Some(preprepare@)),
        preprepare.view_number != variable_config.view_number || preprepare.sequence_number
            != p0.sequence_number + 1 ==> p1 == (PbftView { step: Step::Okay, ..p0 }) && quiet(res),
{
}

} // verus!
