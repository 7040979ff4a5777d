//! A node of a PBFT (Practical Byzantine Fault Tolerance) blockchain: the
//! messages of the protocol, their byte format and signatures, the block
//! store, and how a node answers each event. Sending, receiving, timers and
//! files are left to the program that runs the node, which carries out the
//! actions these functions return.
pub mod client;
pub mod codec;
pub mod database;
pub mod command;
pub mod config;
pub mod key;
pub mod message;
pub mod network;
pub mod pbft;
pub mod state;
pub mod store;
pub mod utils;
pub mod wire;

use crate::client::Client;
use crate::config::{ConstantConfig, VariableConfig};
use crate::key::{
    commit_payload, new_view_payload, sign_heartbeat, sign_request, sign_view_change,
    signed_hearbeat, signed_view_change, verify_commit, verify_new_view, verify_request,
};
use crate::message::{
    commits_needed, commit_quorum, public_key_at, request_signed, signed_by, step_after_timeout,
    counted_for, in_round, view_change_handled, view_fits, after_puts, law_puts_keep_chain, commit_handled, commit_handler, message_type_number, hearbeat_handled, hearbeat_handler, message_type_named,
    new_view_handled, new_view_handler, prepare_handled, prepare_handler, preprepare_handled,
    preprepare_handler, quiet, reply_handler, request_handled, request_handler, sends_one,
    state_request_handled, state_request_handler, state_response_handled,
    state_response_handler, step_for_announcement, sync_request_handled, sync_request_handler,
    sync_response_handled, sync_response_handler, timed_out, view_change_handler,
    view_request_handled, view_request_handler, view_response_handled, view_response_handler,
    Action, Commit, Hearbeat, HearbeatView, MessageType, NewView, NewViewView, PrePrepare, CommitView, RequestView, Prepare,
    Request, StateResponse, SyncRequest, SyncResponse, Target, ViewChange, ViewChangeView, ViewResponse,
};
use crate::network::{law_frame_roundtrip, split_frame};
use crate::pbft::{Pbft, PbftView, Step};
use crate::store::{after_put, block_fits, chain_linked, last_block, law_put_keeps_chain};
use crate::state::State;
use crate::database::KeyValueStore;
use crate::store::Transaction;
use crate::wire::{
    decode_commit, decode_hearbeat, decode_new_view, decode_prepare, decode_preprepare,
    decode_reply, decode_request, decode_state_request, decode_state_response,
    decode_sync_request, decode_sync_response, decode_view_change, decode_view_request,
    decode_view_response, enc_hearbeat, enc_view_change, encode_hearbeat, encode_view_change,
    parse_commit, parse_hearbeat, parse_new_view, parse_prepare, parse_preprepare, parse_reply,
    parse_request, parse_state_request, parse_state_response, parse_sync_request,
    parse_sync_response, parse_view_change, parse_view_request, parse_view_response,
    lemma_sync_response_sound, commit_fits, enc_commit, lemma_commit_roundtrip,
};
use std::collections::HashSet;
use vstd::prelude::*;

verus! {

broadcast use vstd::std_specs::hash::group_hash_axioms;

/// Still catching up with the other nodes at start-up.
pub open spec fn starting_up(step: Step) -> bool {
    step == Step::ReceivingViewResponse || step == Step::ReceivingStateResponse || step
        == Step::ReceivingSyncResponse
}

/// How the check a second after start-up leaves the consensus state (`p0`
/// before, `p1` after), and whether it cut the start-up short (`forced`).
pub open spec fn start_up_checked(p0: PbftView, p1: PbftView, forced: bool) -> bool {
    &&& forced == starting_up(p0.step)
    &&& forced ==> p1 == (PbftView { step: Step::Okay, ..p0 })
    &&& !forced ==> p1 == p0
}

/// A node that is still catching up a second after start-up, whether it
/// waits for views, for the primary's sequence number or for blocks, stops
/// waiting and is ready; a node in any other step is left as it is.
pub proof fn law_start_up_is_cut_short(p0: PbftView, p1: PbftView, forced: bool)
    requires
        start_up_checked(p0, p1, forced),
    ensures
        p0.step == Step::ReceivingViewResponse || p0.step == Step::ReceivingStateResponse || p0.step
            == Step::ReceivingSyncResponse ==> forced && p1.step == Step::Okay && p1.view_number
            == p0.view_number && p1.sequence_number == p0.sequence_number,
        !(p0.step == Step::ReceivingViewResponse || p0.step == Step::ReceivingStateResponse
            || p0.step == Step::ReceivingSyncResponse) ==> !forced && p1 == p0,
{
}

/// A second after a node asked for the view at start-up: a node that is
/// still catching up stops waiting and becomes ready. Returns whether it did.
pub fn view_request(pbft: &mut Pbft) -> (forced: bool)
    ensures
        start_up_checked(old(pbft)@, final(pbft)@, forced),
{
    if pbft.step == Step::ReceivingViewResponse || pbft.step == Step::ReceivingStateResponse
        || pbft.step == Step::ReceivingSyncResponse {
        pbft.step = Step::Okay;
        true
    } else {
        false
    }
}

/// Each second, the primary of the node's view tells all nodes it is alive.
pub fn heartbeat(client: &Client, pbft: &Pbft) -> (res: Result<Vec<Action>, String>)
    requires
        client.well_formed(),
    ensures
        ({
            let beat = HearbeatView {
                view_number: pbft.view_number,
                sequence_number: pbft.sequence_number,
                node_id: client.local_node_id,
                signature: Seq::empty(),
            };
            &&& client.primary_of(pbft.view_number) != client.local_node_id ==> quiet(res)
            &&& client.primary_of(pbft.view_number) == client.local_node_id ==> match res {
                Ok(acts) => signed_hearbeat(client.private_key@, beat) matches Some(h) && sends_one(
                    acts@,
                    Target::Multicast,
                    MessageType::Hearbeat,
                    enc_hearbeat(h),
                ),
                Err(_) => signed_hearbeat(client.private_key@, beat) is None,
            }
        }),
{
    if !client.is_primarry(pbft.view_number) {
        return Ok(Vec::new());
    }
    let mut beat = Hearbeat {
        view_number: pbft.view_number,
        sequence_number: pbft.sequence_number,
        node_id: client.local_node_id,
        signature: Vec::new(),
    };
    match sign_heartbeat(client.private_key.as_str(), &mut beat) {
        Ok(()) => {},
        Err(e) => return Err(e),
    }
    let content = encode_hearbeat(&beat);
    let mut acts: Vec<Action> = Vec::new();
    acts.push(Action::Send { target: Target::Multicast, message_type: MessageType::Hearbeat, content });
    Ok(acts)
}

/// What a backup does when its view change timer fires.
#[derive(Debug, Clone, Copy, PartialEq, Eq, Structural)]
pub enum ViewChangeTick {
    /// Still starting up: the view change timer stops for good.
    Stop,
    /// Nothing more on this tick.
    Wait,
    /// The primary is silent: after a random pause, announce a view change.
    Announce,
}

/// The step of a backup after its view change timer fires: a silent primary
/// is suspected, and a view change that has lasted more than a second is
/// given up.
pub open spec fn step_on_timer(p: PbftView, now: u64) -> Step {
    if p.step != Step::NoPrimary && p.step != Step::ReceivingViewChange {
        Step::NoPrimary
    } else if p.step == Step::ReceivingViewChange && timed_out(p.start_time, now) {
        Step::NoPrimary
    } else {
        p.step
    }
}

/// What the view change timer returns (`tick`) when it fires at time `now`,
/// and how it leaves the consensus state (`p0` before, `p1` after): the
/// primary and a node still starting up are left as they are, and a backup
/// takes the step after the timer.
pub open spec fn timer_fired(client: Client, p0: PbftView, p1: PbftView, now: u64, tick: ViewChangeTick) -> bool {
    let backup = client.primary_of(p0.view_number) != client.local_node_id;
    &&& !backup ==> tick == ViewChangeTick::Wait && p1 == p0
    &&& backup && starting_up(p0.step) ==> tick == ViewChangeTick::Stop && p1 == p0
    &&& backup && !starting_up(p0.step) ==> {
        &&& p1 == (PbftView { step: step_on_timer(p0, now), ..p0 })
        &&& tick == if p0.step == Step::NoPrimary || (p0.step == Step::ReceivingViewChange
            && timed_out(p0.start_time, now)) {
            ViewChangeTick::Announce
        } else {
            ViewChangeTick::Wait
        }
    }
}

/// When the view change timer fires on a backup, one still starting up
/// stops its timer; one that neither suspects the primary nor changes view,
/// whatever it is doing (a round under way included), now suspects the
/// primary, and announces a view change on the next tick; one that suspects
/// it announces a view change; and a view change that has lasted more than a
/// second is given up and announced afresh.
pub proof fn law_timer_suspects_silent_primary(
    client: Client,
    p0: PbftView,
    p1: PbftView,
    now: u64,
    tick: ViewChangeTick,
)
    requires
        timer_fired(client, p0, p1, now, tick),
        client.primary_of(p0.view_number) != client.local_node_id,
    ensures
        p0.step == Step::ReceivingViewResponse || p0.step == Step::ReceivingStateResponse || p0.step
            == Step::ReceivingSyncResponse ==> tick == ViewChangeTick::Stop && p1 == p0,
        p0.step == Step::Okay || p0.step == Step::ReceivingPrepare || p0.step
            == Step::ReceiveingCommit || p0.step == Step::ReceivingNewView ==> tick
            == ViewChangeTick::Wait && p1 == (PbftView { step: Step::NoPrimary, ..p0 }),
        p0.step == Step::NoPrimary ==> tick == ViewChangeTick::Announce && p1 == p0,
        p0.step == Step::ReceivingViewChange && now - p0.start_time > 1 ==> tick
            == ViewChangeTick::Announce && p1 == (PbftView { step: Step::NoPrimary, ..p0 }),
        p0.step == Step::ReceivingViewChange && now - p0.start_time <= 1 ==> tick
            == ViewChangeTick::Wait && p1 == p0,
{
}

/// A backup's view change timer fires (the primary sent no heartbeat for
/// two seconds).
pub fn view_change(client: &Client, pbft: &mut Pbft, now: u64) -> (tick: ViewChangeTick)
    requires
        client.well_formed(),
        client.primary_of(old(pbft).view_number) != client.local_node_id && old(pbft).step
            == Step::ReceivingViewChange ==> now >= old(pbft).start_time,
    ensures
        timer_fired(*client, old(pbft)@, final(pbft)@, now, tick),
{
    if client.is_primarry(pbft.view_number) {
        return ViewChangeTick::Wait;
    }
    if pbft.step == Step::ReceivingViewResponse || pbft.step == Step::ReceivingStateResponse
        || pbft.step == Step::ReceivingSyncResponse {
        return ViewChangeTick::Stop;
    }
    if pbft.step != Step::NoPrimary && pbft.step != Step::ReceivingViewChange {
        pbft.step = Step::NoPrimary;
        return ViewChangeTick::Wait;
    }
    if pbft.step == Step::ReceivingViewChange && now - pbft.start_time > 1 {
        pbft.step = Step::NoPrimary;
    }
    if pbft.step != Step::NoPrimary {
        return ViewChangeTick::Wait;
    }
    ViewChangeTick::Announce
}

/// After its random pause, a backup that still suspects the primary starts a
/// view change: it proposes the view number plus its own id, starts counting
/// votes afresh, and sends its vote to all nodes as a `ViewChange`.
pub fn view_change_announce(client: &Client, pbft: &mut Pbft, now: u64) -> (res: Result<
    Vec<Action>,
    String,
>)
    requires
        old(pbft).step == Step::NoPrimary ==> old(pbft).view_number + client.local_node_id
            <= u64::MAX,
    ensures
        old(pbft).step != Step::NoPrimary ==> quiet(res) && final(pbft)@ == old(pbft)@,
        old(pbft).step == Step::NoPrimary ==> {
            let target = (old(pbft).view_number + client.local_node_id) as u64;
            let vote = ViewChangeView {
                view_number: old(pbft).view_number,
                sequence_number: old(pbft).sequence_number,
                node_id: client.local_node_id,
                new_view_number: client.local_node_id,
                signature: Seq::empty(),
            };
            &&& final(pbft)@ == (PbftView {
                step: Step::ReceivingViewChange,
                start_time: now,
                view_change_collect_map: Map::empty(),
                new_view_number: target,
                ..old(pbft)@
            })
            &&& match res {
                Ok(acts) => signed_view_change(client.private_key@, vote) matches Some(v)
                    && sends_one(acts@, Target::Multicast, MessageType::ViewChange, enc_view_change(v)),
                Err(_) => signed_view_change(client.private_key@, vote) is None,
            }
        },
{
    if pbft.step != Step::NoPrimary {
        return Ok(Vec::new());
    }
    pbft.step = Step::ReceivingViewChange;
    pbft.start_time = now;
    let target = pbft.view_number + client.local_node_id;
    pbft.view_change_collect_map.clear();
    assert(crate::pbft::collected_sets(pbft.view_change_collect_map@) =~= Map::<
        u64,
        Set<u64>,
    >::empty());
    pbft.new_view_number = target;
    let mut vote = ViewChange {
        view_number: pbft.view_number,
        sequence_number: pbft.sequence_number,
        node_id: client.local_node_id,
        new_view_number: client.local_node_id,
        signature: Vec::new(),
    };
    match sign_view_change(client.private_key.as_str(), &mut vote) {
        Ok(()) => {},
        Err(e) => return Err(e),
    }
    let content = encode_view_change(&vote);
    let mut acts: Vec<Action> = Vec::new();
    acts.push(Action::Send { target: Target::Multicast, message_type: MessageType::ViewChange, content });
    Ok(acts)
}

/// A request for a transaction, stamped with the time and signed by this node.
pub fn new_request(client: &Client, transaction: Transaction, timestamp: u64) -> (res: Result<
    Request,
    String,
>)
    ensures
        match res {
            Ok(r) => crate::key::signed_request(
                client.private_key@,
                crate::message::RequestView {
                    transaction,
                    timestamp,
                    node_id: client.local_node_id,
                    signature: Seq::empty(),
                },
            ) == Some(r@),
            Err(_) => crate::key::signed_request(
                client.private_key@,
                crate::message::RequestView {
                    transaction,
                    timestamp,
                    node_id: client.local_node_id,
                    signature: Seq::empty(),
                },
            ) is None,
        },
{
    let mut request = Request {
        transaction,
        timestamp,
        node_id: client.local_node_id,
        signature: Vec::new(),
    };
    match sign_request(client.private_key.as_str(), &mut request) {
        Ok(()) => Ok(request),
        Err(e) => Err(e),
    }
}

/// A request the primary cannot handle: it names an unknown node, or it is
/// signed and taking it would overflow the buffer bound, read a clock that is
/// behind the round's start, or pass the greatest sequence number.
pub open spec fn request_refused(
    constant_config: ConstantConfig,
    v0: VariableConfig,
    client: Client,
    b0: Seq<Request>,
    p0: PbftView,
    m: RequestView,
    now: u64,
) -> bool {
    let bs = constant_config.block_size;
    let len = if b0.len() < 3 * bs {
        b0.len() + 1
    } else {
        b0.len()
    };
    client.primary_of(v0.view_number) == client.local_node_id && (m.node_id
        >= client.identities@.len() || (request_signed(client, m) && (3 * bs > usize::MAX || (
    in_round(p0.step) && now < p0.start_time) || (step_after_timeout(p0, now) == Step::Okay && len
        >= bs && p0.sequence_number == u64::MAX))))
}

/// A pre-prepare a backup cannot handle: a round is under way and the clock
/// reads earlier than its start.
pub open spec fn preprepare_refused(v0: VariableConfig, client: Client, p0: PbftView, now: u64) -> bool {
    client.primary_of(v0.view_number) != client.local_node_id && in_round(p0.step) && now
        < p0.start_time
}

/// A commit a node cannot handle: while it collects commits, it names an
/// unknown node, or it is signed and completes a quorum at the greatest
/// sequence number.
pub open spec fn commit_refused(client: Client, p0: PbftView, m: CommitView) -> bool {
    p0.step == Step::ReceiveingCommit && !p0.commits.contains(m.node_id) && (m.node_id
        >= client.identities@.len() || (signed_by(client, m.node_id, commit_payload(m), m.signature)
        && p0.commits.insert(m.node_id).len() >= commit_quorum(client.identities@.len())
        && p0.sequence_number == u64::MAX))
}

/// An announcement a node cannot handle: for its view and at least its
/// sequence number, it names an unknown node, or it is signed and taking it
/// would read a clock that is behind the view change's start or pass the
/// greatest view number.
pub open spec fn new_view_refused(client: Client, p0: PbftView, m: NewViewView, now: u64) -> bool {
    m.view_number == p0.view_number && m.sequence_number >= p0.sequence_number && (m.node_id
        >= client.identities@.len() || (signed_by(client, m.node_id, new_view_payload(m), m.signature)
        && ((p0.step == Step::ReceivingViewChange && now < p0.start_time) || (step_for_announcement(
        p0,
        now,
    ) == Step::ReceivingNewView && p0.new_view_number + m.node_id > u64::MAX))))
}

/// What handling the datagram `data` at time `now` returns (`res`), and how
/// it leaves the variable configuration (`v0` before, `v1` after), the
/// pending requests (`b0`, `b1`), the database (`c0`, `c1`) and the consensus
/// state (`p0`, `p1`): a datagram of no known type is refused, one whose
/// message cannot be read is ignored, one that names an unknown node where
/// the handler would look it up, or comes when the round cannot advance, is
/// refused, and any other goes to the handler of its type.
pub open spec fn datagram_handled(
    constant_config: ConstantConfig,
    v0: VariableConfig,
    v1: VariableConfig,
    client: Client,
    reliable: bool,
    b0: Seq<Request>,
    b1: Seq<Request>,
    c0: Map<Seq<u8>, Seq<u8>>,
    c1: Map<Seq<u8>, Seq<u8>>,
    p0: PbftView,
    p1: PbftView,
    data: Seq<u8>,
    now: u64,
    res: Result<Vec<Action>, String>,
) -> bool {
    let unchanged = v1 == v0 && b1 == b0 && c1 == c0 && p1 == p0;
    let refused = res is Err && unchanged;
    let ignored = (res matches Ok(acts) && acts@.len() == 0) && unchanged;
    let n = client.identities@.len();
    let content = data.skip(1);
    if split_frame_refuses(data) {
        refused
    } else {
        match message_type_named(data[0]).unwrap() {
            MessageType::Request => match parse_request(content) {
                None => ignored,
                Some((m, _)) => if request_refused(constant_config, v0, client, b0, p0, m, now) {
                    refused
                } else {
                    v1 == v0 && c1 == c0 && exists|r: Request|
                        r@ == m && #[trigger] request_handled(
                            constant_config,
                            v0,
                            client,
                            c0,
                            b0,
                            b1,
                            p0,
                            p1,
                            r,
                            now,
                            res,
                        )
                },
            },
            MessageType::PrePrepare => match parse_preprepare(content) {
                None => ignored,
                Some((m, _)) => if preprepare_refused(v0, client, p0, now) {
                    refused
                } else {
                    v1 == v0 && b1 == b0 && c1 == c0 && exists|r: PrePrepare|
                        r@ == m && #[trigger] preprepare_handled(v0, client, reliable, c0, p0, p1, r, now, res)
                },
            },
            MessageType::Prepare => match parse_prepare(content) {
                None => ignored,
                Some((m, _)) => if p0.step == Step::ReceivingPrepare && !p0.prepares.contains(
                    m.node_id,
                ) && m.node_id >= n {
                    refused
                } else {
                    v1 == v0 && b1 == b0 && c1 == c0 && exists|r: Prepare|
                        r@ == m && #[trigger] prepare_handled(client, p0, p1, r, res)
                },
            },
            MessageType::Commit => match parse_commit(content) {
                None => ignored,
                Some((m, _)) => if commit_refused(client, p0, m) {
                    refused
                } else {
                    v1 == v0 && exists|r: Commit|
                        r@ == m && #[trigger] commit_handled(v0, client, reliable, b0, b1, c0, c1, p0, p1, r, res)
                },
            },
            MessageType::Reply => match parse_reply(content) {
                None => ignored,
                Some(_) => quiet(res) && unchanged,
            },
            MessageType::Hearbeat => match parse_hearbeat(content) {
                None => ignored,
                Some((m, _)) => unchanged && exists|r: Hearbeat|
                    r@ == m && #[trigger] hearbeat_handled(v0, client, p0, r, res),
            },
            MessageType::ViewChange => match parse_view_change(content) {
                None => ignored,
                Some((m, _)) => if p0.step != Step::ReceivingViewResponse && p0.step
                    != Step::ReceivingStateResponse && p0.step != Step::ReceivingSyncResponse
                    && m.view_number == p0.view_number && view_fits(m.view_number, m.new_view_number)
                    && !counted_for(
                    p0.view_change_collect_map,
                    (m.view_number + m.new_view_number) as u64,
                ).contains(m.node_id) && m.node_id >= n {
                    refused
                } else {
                    b1 == b0 && c1 == c0 && exists|r: ViewChange|
                        r@ == m && #[trigger] view_change_handled(v0, v1, client, p0, p1, r, res)
                },
            },
            MessageType::NewView => match parse_new_view(content) {
                None => ignored,
                Some((m, _)) => if new_view_refused(client, p0, m, now) {
                    refused
                } else {
                    v1 == v0 && b1 == b0 && c1 == c0 && exists|r: NewView|
                        r@ == m && #[trigger] new_view_handled(client, p0, p1, r, now, res)
                },
            },
            MessageType::ViewRequest => match parse_view_request(content) {
                None => ignored,
                Some(_) => unchanged && view_request_handled(v0, client, res),
            },
            MessageType::ViewResponse => match parse_view_response(content) {
                None => ignored,
                Some((m, _)) => if p0.step == Step::ReceivingViewResponse && m.node_id >= n {
                    refused
                } else {
                    b1 == b0 && c1 == c0 && exists|r: ViewResponse|
                        r@ == m && #[trigger] view_response_handled(v0, v1, client, p0, p1, r, res)
                },
            },
            MessageType::StateRequest => match parse_state_request(content) {
                None => ignored,
                Some(_) => unchanged && state_request_handled(client, p0, res),
            },
            MessageType::StateResponse => match parse_state_response(content) {
                None => ignored,
                Some((m, _)) => v1 == v0 && b1 == b0 && c1 == c0 && exists|r: StateResponse|
                    r@ == m && #[trigger] state_response_handled(v0, client, p0, p1, r, res),
            },
            MessageType::SyncRequest => match parse_sync_request(content) {
                None => ignored,
                Some((m, _)) => unchanged && exists|r: SyncRequest|
                    r@ == m && #[trigger] sync_request_handled(client, reliable, c0, r, res),
            },
            MessageType::SyncResponse => match parse_sync_response(content) {
                None => ignored,
                Some((m, _)) => v1 == v0 && exists|r: SyncResponse|
                    r@ == m && #[trigger] sync_response_handled(
                        v0,
                        client,
                        reliable,
                        b0,
                        b1,
                        c0,
                        c1,
                        p0,
                        p1,
                        r,
                        res,
                    ),
            },
            MessageType::Unknown => refused,
        }
    }
}

/// A commit that arrives in a datagram is handled as the commit handler
/// would: a commit signed by a known node not yet counted, which completes
/// the quorum below the greatest sequence number, on a node that collects
/// commits for a proposal and whose store holds its last block and does not
/// fail, appends the proposal's block, advances the sequence number and makes
/// the node idle again.
pub proof fn law_commit_datagram_commits(
    constant_config: ConstantConfig,
    v0: VariableConfig,
    v1: VariableConfig,
    client: Client,
    reliable: bool,
    b0: Seq<Request>,
    b1: Seq<Request>,
    c0: Map<Seq<u8>, Seq<u8>>,
    c1: Map<Seq<u8>, Seq<u8>>,
    p0: PbftView,
    p1: PbftView,
    m: CommitView,
    now: u64,
    res: Result<Vec<Action>, String>,
)
    requires
        datagram_handled(
            constant_config,
            v0,
            v1,
            client,
            reliable,
            b0,
            b1,
            c0,
            c1,
            p0,
            p1,
            seq![message_type_number(MessageType::Commit)] + enc_commit(m),
            now,
            res,
        ),
        commit_fits(m),
        reliable,
        p0.step == Step::ReceiveingCommit,
        !p0.commits.contains(m.node_id),
        m.node_id < client.identities@.len(),
        signed_by(client, m.node_id, commit_payload(m), m.signature),
        p0.commits.insert(m.node_id).len() >= commit_quorum(client.identities@.len()),
        p0.sequence_number < u64::MAX,
        p0.preprepare matches Some(pp) && (last_block(c0) matches Some(Some(_))),
    ensures
        quiet(res),
        v1 == v0,
        p1.sequence_number == p0.sequence_number + 1,
        p1.step == Step::Okay,
        p1.commits == p0.commits.insert(m.node_id),
        c1 == after_put(c0, p0.preprepare.unwrap().block),
{
    let data = seq![message_type_number(MessageType::Commit)] + enc_commit(m);
    law_frame_roundtrip(MessageType::Commit, enc_commit(m));
    lemma_commit_roundtrip(m, Seq::empty());
    assert(enc_commit(m) + Seq::<u8>::empty() =~= enc_commit(m));
    assert(parse_commit(data.skip(1)) == Some((m, enc_commit(m).len())));
    assert(!commit_refused(client, p0, m));
    let r = choose|r: Commit| r@ == m && #[trigger] commit_handled(v0, client, reliable, b0, b1, c0, c1, p0, p1, r, res);
    assert(r.node_id == m.node_id);
}

/// A node never holds more than three blocks' worth of pending requests:
/// handling any datagram keeps the pending requests within that bound.
pub proof fn law_pending_requests_bounded(
    constant_config: ConstantConfig,
    v0: VariableConfig,
    v1: VariableConfig,
    client: Client,
    reliable: bool,
    b0: Seq<Request>,
    b1: Seq<Request>,
    c0: Map<Seq<u8>, Seq<u8>>,
    c1: Map<Seq<u8>, Seq<u8>>,
    p0: PbftView,
    p1: PbftView,
    data: Seq<u8>,
    now: u64,
    res: Result<Vec<Action>, String>,
)
    requires
        b0.len() <= 3 * constant_config.block_size,
        datagram_handled(constant_config, v0, v1, client, reliable, b0, b1, c0, c1, p0, p1, data, now, res),
    ensures
        b1.len() <= 3 * constant_config.block_size,
{
    if !split_frame_refuses(data) {
        let content = data.skip(1);
        match message_type_named(data[0]).unwrap() {
            MessageType::Request => {
                if let Some((m, _)) = parse_request(content) {
                    if !request_refused(constant_config, v0, client, b0, p0, m, now) {
                        let r = choose|r: Request|
                            r@ == m && #[trigger] request_handled(
                                constant_config,
                                v0,
                                client,
                                c0,
                                b0,
                                b1,
                                p0,
                                p1,
                                r,
                                now,
                                res,
                            );
                        assert(request_handled(constant_config, v0, client, c0, b0, b1, p0, p1, r, now, res));
                    }
                }
            },
            MessageType::Commit => {
                if let Some((m, _)) = parse_commit(content) {
                    if !commit_refused(client, p0, m) {
                        let r = choose|r: Commit|
                            r@ == m && #[trigger] commit_handled(v0, client, reliable, b0, b1, c0, c1, p0, p1, r, res);
                        assert(commit_handled(v0, client, reliable, b0, b1, c0, c1, p0, p1, r, res));
                    }
                }
            },
            MessageType::SyncResponse => {
                if let Some((m, _)) = parse_sync_response(content) {
                    let r = choose|r: SyncResponse|
                        r@ == m && #[trigger] sync_response_handled(v0, client, reliable, b0, b1, c0, c1, p0, p1, r, res);
                    assert(sync_response_handled(v0, client, reliable, b0, b1, c0, c1, p0, p1, r, res));
                }
            },
            _ => {},
        }
    }
}

/// Handling any datagram keeps the node's chain whole: blocks are only ever
/// appended after the last one, whether a round commits one or a node that
/// catches up takes them from the primary.
pub proof fn law_chain_stays_linked(
    constant_config: ConstantConfig,
    v0: VariableConfig,
    v1: VariableConfig,
    client: Client,
    reliable: bool,
    b0: Seq<Request>,
    b1: Seq<Request>,
    c0: Map<Seq<u8>, Seq<u8>>,
    c1: Map<Seq<u8>, Seq<u8>>,
    p0: PbftView,
    p1: PbftView,
    data: Seq<u8>,
    now: u64,
    res: Result<Vec<Action>, String>,
)
    requires
        chain_linked(c0),
        p0.preprepare matches Some(pp) ==> block_fits(pp.block),
        datagram_handled(constant_config, v0, v1, client, reliable, b0, b1, c0, c1, p0, p1, data, now, res),
    ensures
        chain_linked(c1),
{
    if !split_frame_refuses(data) {
        let content = data.skip(1);
        match message_type_named(data[0]).unwrap() {
            MessageType::Commit => {
                if let Some((m, _)) = parse_commit(content) {
                    if !commit_refused(client, p0, m) {
                        let r = choose|r: Commit|
                            r@ == m && #[trigger] commit_handled(v0, client, reliable, b0, b1, c0, c1, p0, p1, r, res);
                        assert(commit_handled(v0, client, reliable, b0, b1, c0, c1, p0, p1, r, res));
                        if let Some(pp) = p0.preprepare {
                            law_put_keeps_chain(c0, pp.block);
                        }
                    }
                }
            },
            MessageType::SyncResponse => {
                if let Some((m, _)) = parse_sync_response(content) {
                    let r = choose|r: SyncResponse|
                        r@ == m && #[trigger] sync_response_handled(v0, client, reliable, b0, b1, c0, c1, p0, p1, r, res);
                    assert(sync_response_handled(v0, client, reliable, b0, b1, c0, c1, p0, p1, r, res));
                    lemma_sync_response_sound(content);
                    let blocks = m.blocks;
                    if res is Ok {
                        law_puts_keep_chain(c0, blocks);
                    } else {
                        if c1 != c0 {
                            let k = choose|k: int|
                                0 <= k <= blocks.len() && c1 == after_puts(c0, #[trigger] blocks.take(k));
                            assert forall|i: int| 0 <= i < blocks.take(k).len() implies block_fits(
                                #[trigger] blocks.take(k)[i],
                            ) by {
                                assert(blocks.take(k)[i] == blocks[i]);
                            }
                            law_puts_keep_chain(c0, blocks.take(k));
                        }
                    }
                }
            },
            _ => {},
        }
    }
}

/// A node handles one received datagram: its first byte names the message
/// type and the rest holds the message. A datagram whose type is unknown is
/// refused; one whose message cannot be read is ignored; otherwise the
/// message goes to its handler. A message that names a node id the node does
/// not know where the handler would look the node up, or that comes when the
/// clock reads earlier than the current round's start, is refused.
pub fn handle_message<D: KeyValueStore>(
    constant_config: &ConstantConfig,
    variable_config: &mut VariableConfig,
    client: &Client,
    state: &mut State<D>,
    pbft: &mut Pbft,
    data: &[u8],
    now: u64,
) -> (res: Result<Vec<Action>, String>)
    requires
        client.well_formed(),
    ensures
        datagram_handled(
            *constant_config,
            *old(variable_config),
            *final(variable_config),
            *client,
            old(state).rocksdb.db.never_fails(),
            old(state).request_buffer@,
            final(state).request_buffer@,
            old(state).rocksdb.db.contents(),
            final(state).rocksdb.db.contents(),
            old(pbft)@,
            final(pbft)@,
            data@,
            now,
            res,
        ),
        !(data@.len() > 0 && (message_type_named(data@[0]) == Some(MessageType::Commit)
            || message_type_named(data@[0]) == Some(MessageType::SyncResponse)))
            ==> final(state).rocksdb.db.contents() == old(state).rocksdb.db.contents(),
{
    let (message_type, content) = match split_frame(data) {
        Some(r) => r,
        None => return Err("unknown message type".to_string()),
    };
    let n = client.identities.len();
    match message_type {
        MessageType::Request => match decode_request(content) {
            None => Ok(Vec::new()),
            Some(m) => {
                let mut m = m;
                if client.is_primarry(variable_config.view_number) {
                    if !(m.node_id < n as u64) {
                        return Err("a request from an unknown node".to_string());
                    }
                    let bs = constant_config.block_size;
                    let len = state.request_buffer.len() as u128;
                    let taken = if len < 3 * (bs as u128) {
                        len + 1
                    } else {
                        len
                    };
                    let in_round = pbft.step == Step::ReceivingPrepare || pbft.step
                        == Step::ReceiveingCommit;
                    let risky = 3 * (bs as u128) > usize::MAX as u128 || (in_round && now
                        < pbft.start_time) || (pbft.sequence_number == u64::MAX && ((in_round && now
                        - pbft.start_time > 1) || pbft.step == Step::Okay) && taken >= bs as u128);
                    if risky {
                        let signed = match verify_request(public_key_at(client, m.node_id), &mut m) {
                            Ok(b) => b,
                            Err(e) => return Err(e),
                        };
                        if signed {
                            return Err("the request cannot be taken".to_string());
                        }
                    }
                }
                request_handler(constant_config, variable_config, client, state, pbft, m, now)
            },
        },
        MessageType::PrePrepare => match decode_preprepare(content) {
            None => Ok(Vec::new()),
            Some(m) => {
                if !client.is_primarry(variable_config.view_number) && (pbft.step
                    == Step::ReceivingPrepare || pbft.step == Step::ReceiveingCommit) && now
                    < pbft.start_time {
                    return Err("the clock reads earlier than the round's start".to_string());
                }
                preprepare_handler(variable_config, client, state, pbft, m, now)
            },
        },
        MessageType::Prepare => match decode_prepare(content) {
            None => Ok(Vec::new()),
            Some(m) => {
                if pbft.step == Step::ReceivingPrepare && !pbft.prepares.contains(&m.node_id)
                    && !(m.node_id < n as u64) {
                    return Err("a prepare from an unknown node".to_string());
                }
                prepare_handler(client, pbft, m)
            },
        },
        MessageType::Commit => match decode_commit(content) {
            None => Ok(Vec::new()),
            Some(m) => {
                let mut m = m;
                if pbft.step == Step::ReceiveingCommit && !pbft.commits.contains(&m.node_id) {
                    if !(m.node_id < n as u64) {
                        return Err("a commit from an unknown node".to_string());
                    }
                    if pbft.sequence_number == u64::MAX {
                        let ghost commits = pbft.commits@;
                        pbft.commits.insert(m.node_id);
                        let counted = pbft.commits.len();
                        pbft.commits.remove(&m.node_id);
                        assert(pbft.commits@ =~= commits);
                        if counted >= commits_needed(client) {
                            let signed = match verify_commit(public_key_at(client, m.node_id), &mut m) {
                                Ok(b) => b,
                                Err(e) => return Err(e),
                            };
                            if signed {
                                return Err("the round cannot advance".to_string());
                            }
                        }
                    }
                }
                commit_handler(variable_config, client, state, pbft, m)
            },
        },
        MessageType::Reply => match decode_reply(content) {
            None => Ok(Vec::new()),
            Some(m) => reply_handler(m),
        },
        MessageType::Hearbeat => match decode_hearbeat(content) {
            None => Ok(Vec::new()),
            Some(m) => hearbeat_handler(variable_config, client, pbft, m),
        },
        MessageType::ViewChange => match decode_view_change(content) {
            None => Ok(Vec::new()),
            Some(m) => {
                if pbft.step != Step::ReceivingViewResponse && pbft.step
                    != Step::ReceivingStateResponse && pbft.step != Step::ReceivingSyncResponse
                    && m.view_number == pbft.view_number && m.new_view_number <= u64::MAX
                    - m.view_number && !(m.node_id < n as u64) {
                    let counted = match pbft.view_change_collect_map.get(
                        &(m.view_number + m.new_view_number),
                    ) {
                        Some(s) => s.contains(&m.node_id),
                        None => false,
                    };
                    if !counted {
                        return Err("a view change from an unknown node".to_string());
                    }
                }
                view_change_handler(variable_config, client, pbft, m)
            },
        },
        MessageType::NewView => match decode_new_view(content) {
            None => Ok(Vec::new()),
            Some(m) => {
                let mut m = m;
                if m.view_number == pbft.view_number && m.sequence_number >= pbft.sequence_number {
                    if !(m.node_id < n as u64) {
                        return Err("a new view from an unknown node".to_string());
                    }
                    let risky = (pbft.step == Step::ReceivingViewChange && now < pbft.start_time) || ((
                    pbft.step == Step::ReceivingNewView || (pbft.step == Step::ReceivingViewChange
                        && now - pbft.start_time > 1)) && m.node_id > u64::MAX - pbft.new_view_number);
                    if risky {
                        let signed = match verify_new_view(public_key_at(client, m.node_id), &mut m) {
                            Ok(b) => b,
                            Err(e) => return Err(e),
                        };
                        if signed {
                            return Err("the announcement cannot be taken".to_string());
                        }
                    }
                }
                new_view_handler(client, pbft, m, now)
            },
        },
        MessageType::ViewRequest => match decode_view_request(content) {
            None => Ok(Vec::new()),
            Some(m) => view_request_handler(variable_config, client, m),
        },
        MessageType::ViewResponse => match decode_view_response(content) {
            None => Ok(Vec::new()),
            Some(m) => {
                if pbft.step == Step::ReceivingViewResponse && !(m.node_id < n as u64) {
                    return Err("a view response from an unknown node".to_string());
                }
                view_response_handler(variable_config, client, pbft, m)
            },
        },
        MessageType::StateRequest => match decode_state_request(content) {
            None => Ok(Vec::new()),
            Some(m) => state_request_handler(client, pbft, m),
        },
        MessageType::StateResponse => match decode_state_response(content) {
            None => Ok(Vec::new()),
            Some(m) => state_response_handler(variable_config, client, pbft, m),
        },
        MessageType::SyncRequest => match decode_sync_request(content) {
            None => Ok(Vec::new()),
            Some(m) => sync_request_handler(client, state, m),
        },
        MessageType::SyncResponse => match decode_sync_response(content) {
            None => Ok(Vec::new()),
            Some(m) => sync_response_handler(variable_config, client, state, pbft, m),
        },
        MessageType::Unknown => Err("unknown message type".to_string()),
    }
}

/// A datagram that is empty or whose first byte names no message type.
pub open spec fn split_frame_refuses(data: Seq<u8>) -> bool {
    data.len() == 0 || message_type_named(data[0]) is None
}

} // verus!
